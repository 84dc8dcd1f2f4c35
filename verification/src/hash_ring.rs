//! Consistent hashing: placement of shopping lists on server replicas.
use vstd::prelude::*;
use std::collections::HashSet;
use crate::ids::{decimal_text, md5_of, md5_value, uuid_dash_index, uuid_string, uuid_text};
use crate::sorted_map::{
    lemma_to_map_empty, lemma_to_map_entries, sm_insert, sm_remove, sorted, to_map,
};

verus! {

/// Virtual nodes each server places on the ring.
pub const VNODES: usize = 3;

/// Servers that hold a copy of each shopping list.
pub const REPLICAS: usize = 3;

/// Minimum number of nodes that must take part in a write.
pub const WRITE_NODES: usize = 2;

/// Minimum number of nodes that must take part in a read.
pub const READ_NODES: usize = 2;

/// Position on the ring of the `i`-th virtual node of `node`: the digest of `"{uuid}-{i}"`.
pub open spec fn vnode_hash(node: u128, i: nat) -> u128 {
    md5_value(uuid_text(node) + seq!['-'] + decimal_text(i))
}

/// Position on the ring of the shopping list `list_id`: the digest of its UUID text.
pub open spec fn list_hash(list_id: u128) -> u128 {
    md5_value(uuid_text(list_id))
}

/// `m` with the first `count` virtual nodes of `node` placed, in order; a later
/// placement at an occupied position replaces the server there.
pub open spec fn with_vnodes(m: Map<u128, u128>, node: u128, count: nat) -> Map<u128, u128>
    decreases count,
{
    if count == 0 {
        m
    } else {
        with_vnodes(m, node, (count - 1) as nat).insert(vnode_hash(node, (count - 1) as nat), node)
    }
}

/// `m` with the virtual nodes of each server of `nodes` placed, in order.
pub open spec fn with_servers(m: Map<u128, u128>, nodes: Seq<u128>, count: nat) -> Map<u128, u128>
    decreases nodes.len(),
{
    if nodes.len() == 0 {
        m
    } else {
        with_vnodes(with_servers(m, nodes.drop_last(), count), nodes.last(), count)
    }
}

/// `m` with the positions of the first `count` virtual nodes of `node` cleared.
pub open spec fn without_vnodes(m: Map<u128, u128>, node: u128, count: nat) -> Map<u128, u128>
    decreases count,
{
    if count == 0 {
        m
    } else {
        without_vnodes(m, node, (count - 1) as nat).remove(vnode_hash(node, (count - 1) as nat))
    }
}

/// Every occupied position is one of the first `count` virtual-node positions of the
/// server that owns it.
pub open spec fn placed_by_owner(m: Map<u128, u128>, count: nat) -> bool {
    forall|h: u128|
        #[trigger] m.dom().contains(h) ==> exists|j: nat| j < count && h == vnode_hash(m[h], j)
}

proof fn lemma_without_vnodes(m: Map<u128, u128>, node: u128, count: nat)
    ensures
        forall|h: u128| #[trigger] without_vnodes(m, node, count).dom().contains(h) ==> m.dom().contains(h)
            && without_vnodes(m, node, count)[h] == m[h],
        forall|j: nat| j < count ==> !(#[trigger] without_vnodes(m, node, count).dom().contains(vnode_hash(node, j))),
    decreases count,
{
    if count > 0 {
        lemma_without_vnodes(m, node, (count - 1) as nat);
        let prev = without_vnodes(m, node, (count - 1) as nat);
        let cur = without_vnodes(m, node, count);
        assert(cur == prev.remove(vnode_hash(node, (count - 1) as nat)));
        assert forall|h: u128| #[trigger] cur.dom().contains(h) implies m.dom().contains(h)
            && cur[h] == m[h] by {
            assert(prev.dom().contains(h));
        }
        assert forall|j: nat| j < count implies !(#[trigger] cur.dom().contains(vnode_hash(node, j))) by {
            if j < count - 1 {
                assert(!prev.dom().contains(vnode_hash(node, j)));
            }
        }
    }
}

/// The servers of ring entries, in order.
pub open spec fn nodes_of(s: Seq<(u128, u128)>) -> Seq<u128> {
    s.map_values(|e: (u128, u128)| e.1)
}

/// The entries from the first one at or after position `h` onwards.
pub open spec fn from_hash(s: Seq<(u128, u128)>, h: u128) -> Seq<(u128, u128)>
    decreases s.len(),
{
    if s.len() == 0 {
        s
    } else if s[0].0 >= h {
        s
    } else {
        from_hash(s.drop_first(), h)
    }
}

/// The entries from the first one strictly after position `h` onwards.
pub open spec fn after_hash(s: Seq<(u128, u128)>, h: u128) -> Seq<(u128, u128)>
    decreases s.len(),
{
    if s.len() == 0 {
        s
    } else if s[0].0 > h {
        s
    } else {
        after_hash(s.drop_first(), h)
    }
}

/// The servers met walking the ring clockwise from position `h`, once round and
/// then once more from the start.
pub open spec fn clockwise(s: Seq<(u128, u128)>, h: u128) -> Seq<u128> {
    nodes_of(from_hash(s, h)) + nodes_of(s)
}

/// `s` with every repeated element dropped after its first occurrence.
pub open spec fn first_distinct(s: Seq<u128>) -> Seq<u128>
    decreases s.len(),
{
    if s.len() == 0 {
        s
    } else {
        let d = first_distinct(s.drop_last());
        if d.contains(s.last()) {
            d
        } else {
            d.push(s.last())
        }
    }
}

/// How many servers a preference list holds: the replication factor, or one where it is zero.
pub open spec fn wanted(replicas: nat) -> nat {
    if replicas == 0 {
        1
    } else {
        replicas
    }
}

/// The preference list for position `h`: the first distinct servers met clockwise
/// from `h`, as many as wanted or all there are.
pub open spec fn preference_spec(s: Seq<(u128, u128)>, h: u128, replicas: nat) -> Seq<u128> {
    let d = first_distinct(clockwise(s, h));
    if d.len() <= wanted(replicas) {
        d
    } else {
        d.take(wanted(replicas) as int)
    }
}

/// Position of the first virtual node of `node`, if it has one.
pub open spec fn first_vnode(s: Seq<(u128, u128)>, node: u128) -> Option<u128>
    decreases s.len(),
{
    if s.len() == 0 {
        None
    } else if s[0].1 == node {
        Some(s[0].0)
    } else {
        first_vnode(s.drop_first(), node)
    }
}

/// The first element of `s` that differs from `node`.
pub open spec fn first_other(s: Seq<u128>, node: u128) -> Option<u128>
    decreases s.len(),
{
    if s.len() == 0 {
        None
    } else if s[0] != node {
        Some(s[0])
    } else {
        first_other(s.drop_first(), node)
    }
}

/// The server that follows `node` clockwise from `node`'s first virtual node.
pub open spec fn next_spec(s: Seq<(u128, u128)>, node: u128) -> Option<u128> {
    match first_vnode(s, node) {
        None => None,
        Some(h) => first_other(nodes_of(after_hash(s, h)) + nodes_of(s), node),
    }
}

proof fn lemma_from_hash_skip(s: Seq<(u128, u128)>, h: u128, i: int)
    requires
        0 <= i <= s.len(),
        forall|j: int| 0 <= j < i ==> (#[trigger] s[j]).0 < h,
        i < s.len() ==> s[i].0 >= h,
    ensures
        from_hash(s, h) == s.skip(i),
    decreases i,
{
    if i == 0 {
        assert(s.skip(0) =~= s);
    } else {
        assert(s[0].0 < h);
        let t = s.drop_first();
        assert forall|j: int| 0 <= j < i - 1 implies (#[trigger] t[j]).0 < h by {
            assert(t[j] == s[j + 1]);
        }
        if i - 1 < t.len() {
            assert(t[i - 1] == s[i]);
        }
        lemma_from_hash_skip(t, h, i - 1);
        assert(t.skip(i - 1) =~= s.skip(i));
    }
}

proof fn lemma_after_hash_skip(s: Seq<(u128, u128)>, h: u128, i: int)
    requires
        0 <= i <= s.len(),
        forall|j: int| 0 <= j < i ==> (#[trigger] s[j]).0 <= h,
        i < s.len() ==> s[i].0 > h,
    ensures
        after_hash(s, h) == s.skip(i),
    decreases i,
{
    if i == 0 {
        assert(s.skip(0) =~= s);
    } else {
        assert(s[0].0 <= h);
        let t = s.drop_first();
        assert forall|j: int| 0 <= j < i - 1 implies (#[trigger] t[j]).0 <= h by {
            assert(t[j] == s[j + 1]);
        }
        if i - 1 < t.len() {
            assert(t[i - 1] == s[i]);
        }
        lemma_after_hash_skip(t, h, i - 1);
        assert(t.skip(i - 1) =~= s.skip(i));
    }
}

proof fn lemma_first_vnode_at(s: Seq<(u128, u128)>, node: u128, i: int)
    requires
        0 <= i <= s.len(),
        forall|j: int| 0 <= j < i ==> (#[trigger] s[j]).1 != node,
    ensures
        i < s.len() && s[i].1 == node ==> first_vnode(s, node) == Some(s[i].0),
        i == s.len() ==> first_vnode(s, node) is None,
    decreases i,
{
    if i > 0 {
        assert(s[0].1 != node);
        let t = s.drop_first();
        assert forall|j: int| 0 <= j < i - 1 implies (#[trigger] t[j]).1 != node by {
            assert(t[j] == s[j + 1]);
        }
        lemma_first_vnode_at(t, node, i - 1);
        if i < s.len() {
            assert(t[i - 1] == s[i]);
        }
    } else if s.len() == 0 {
    }
}

proof fn lemma_first_other_at(s: Seq<u128>, node: u128, i: int)
    requires
        0 <= i <= s.len(),
        forall|j: int| 0 <= j < i ==> #[trigger] s[j] == node,
    ensures
        i < s.len() && s[i] != node ==> first_other(s, node) == Some(s[i]),
        i == s.len() ==> first_other(s, node) is None,
    decreases i,
{
    if i > 0 {
        assert(s[0] == node);
        let t = s.drop_first();
        assert forall|j: int| 0 <= j < i - 1 implies #[trigger] t[j] == node by {
            assert(t[j] == s[j + 1]);
        }
        lemma_first_other_at(t, node, i - 1);
        if i < s.len() {
            assert(t[i - 1] == s[i]);
        }
    }
}

proof fn lemma_first_distinct(s: Seq<u128>)
    ensures
        first_distinct(s).no_duplicates(),
        forall|x: u128| first_distinct(s).contains(x) <==> s.contains(x),
    decreases s.len(),
{
    if s.len() > 0 {
        let t = s.drop_last();
        lemma_first_distinct(t);
        assert forall|x: u128| s.contains(x) <==> t.contains(x) || x == s.last() by {
            if s.contains(x) {
                let i = choose|i: int| 0 <= i < s.len() && s[i] == x;
                if i < t.len() {
                    assert(t[i] == x);
                }
            }
            if t.contains(x) {
                let i = choose|i: int| 0 <= i < t.len() && t[i] == x;
                assert(s[i] == x);
            }
            assert(s[s.len() - 1] == s.last());
        }
        let d = first_distinct(t);
        if !d.contains(s.last()) {
            assert forall|x: u128| d.push(s.last()).contains(x) <==> d.contains(x) || x == s.last() by {
                if d.push(s.last()).contains(x) {
                    let i = choose|i: int| 0 <= i < d.push(s.last()).len() && d.push(s.last())[i] == x;
                    if i < d.len() {
                        assert(d[i] == x);
                    }
                }
                if d.contains(x) {
                    let i = choose|i: int| 0 <= i < d.len() && d[i] == x;
                    assert(d.push(s.last())[i] == x);
                }
                assert(d.push(s.last())[d.len() as int] == s.last());
            }
        }
    }
}

proof fn lemma_first_distinct_prefix(s: Seq<u128>, i: int)
    requires
        0 <= i <= s.len(),
    ensures
        first_distinct(s.take(i)).len() <= first_distinct(s).len(),
        first_distinct(s).take(first_distinct(s.take(i)).len() as int) == first_distinct(s.take(i)),
    decreases s.len(),
{
    if i == s.len() {
        assert(s.take(i) =~= s);
        assert(first_distinct(s).take(first_distinct(s).len() as int) =~= first_distinct(s));
    } else {
        let t = s.drop_last();
        assert(s.take(i) =~= t.take(i));
        lemma_first_distinct_prefix(t, i);
        let d = first_distinct(t);
        let k = first_distinct(t.take(i)).len() as int;
        if !d.contains(s.last()) {
            assert(d.push(s.last()).take(k) =~= d.take(k));
        }
    }
}

/// Every server of the walk is a server of the ring, and every server of the ring is met.
proof fn lemma_clockwise_servers(s: Seq<(u128, u128)>, h: u128)
    requires
        sorted(s),
    ensures
        clockwise(s, h).to_set() == to_map(s).values(),
{
    lemma_to_map_entries(s);
    let w = clockwise(s, h);
    let f = from_hash(s, h);
    assert forall|x: u128| #[trigger] w.to_set().contains(x) <==> to_map(s).values().contains(x) by {
        if w.contains(x) {
            let p = choose|p: int| 0 <= p < w.len() && w[p] == x;
            if p < f.len() {
                lemma_from_hash_suffix(s, h);
                let q = choose|q: int| 0 <= q < s.len() && s[q] == f[p];
                assert(nodes_of(f)[p] == f[p].1);
                assert(to_map(s)[s[q].0] == s[q].1);
            } else {
                let q = p - f.len();
                assert(w[p] == nodes_of(s)[q]);
                assert(to_map(s)[s[q].0] == s[q].1);
            }
        }
        if to_map(s).values().contains(x) {
            let k = choose|k: u128| to_map(s).dom().contains(k) && to_map(s)[k] == x;
            let q = choose|q: int| 0 <= q < s.len() && #[trigger] s[q].0 == k;
            assert(w[f.len() + q] == x);
        }
    }
    assert(w.to_set() =~= to_map(s).values());
}

/// The entries from position `h` on are entries of the ring.
proof fn lemma_from_hash_suffix(s: Seq<(u128, u128)>, h: u128)
    ensures
        forall|p: int|
            0 <= p < from_hash(s, h).len() ==> exists|q: int|
                0 <= q < s.len() && s[q] == #[trigger] from_hash(s, h)[p],
    decreases s.len(),
{
    if s.len() > 0 && s[0].0 < h {
        let t = s.drop_first();
        lemma_from_hash_suffix(t, h);
        assert forall|p: int| 0 <= p < from_hash(s, h).len() implies exists|q: int|
            0 <= q < s.len() && s[q] == #[trigger] from_hash(s, h)[p] by {
            let q = choose|q: int| 0 <= q < t.len() && t[q] == from_hash(t, h)[p];
            assert(s[q + 1] == t[q]);
        }
    } else {
        assert forall|p: int| 0 <= p < from_hash(s, h).len() implies exists|q: int|
            0 <= q < s.len() && s[q] == #[trigger] from_hash(s, h)[p] by {
            assert(s[p] == from_hash(s, h)[p]);
        }
    }
}

/// Walking the ring clockwise from position `h`: position `a` is met before position
/// `b`. The positions at or after `h` come first, in increasing order, then those
/// before `h`, in increasing order.
pub open spec fn walk_before(a: u128, b: u128, h: u128) -> bool {
    if (a >= h) == (b >= h) {
        a < b
    } else {
        a >= h
    }
}

/// Walking the ring clockwise from just after position `f`: position `a` is met before
/// position `b`. The positions after `f` come first, in increasing order, then those
/// up to `f`, in increasing order.
pub open spec fn walk_after_before(a: u128, b: u128, f: u128) -> bool {
    if (a > f) == (b > f) {
        a < b
    } else {
        a > f
    }
}

/// Where the entries at or after position `h` begin.
proof fn lemma_hash_start(s: Seq<(u128, u128)>, h: u128) -> (st: int)
    ensures
        0 <= st <= s.len(),
        forall|j: int| 0 <= j < st ==> (#[trigger] s[j]).0 < h,
        st < s.len() ==> s[st].0 >= h,
        from_hash(s, h) == s.skip(st),
    decreases s.len(),
{
    if s.len() == 0 || s[0].0 >= h {
        lemma_from_hash_skip(s, h, 0);
        0
    } else {
        let t = s.drop_first();
        let r = lemma_hash_start(t, h);
        assert forall|j: int| 0 <= j < r + 1 implies (#[trigger] s[j]).0 < h by {
            if j > 0 {
                assert(s[j] == t[j - 1]);
            }
        }
        if r + 1 < s.len() {
            assert(s[r + 1] == t[r]);
        }
        lemma_from_hash_skip(s, h, r + 1);
        r + 1
    }
}

/// Each element of `first_distinct(w)` is first met in `w` after all the elements
/// before it.
proof fn lemma_first_distinct_witness(w: Seq<u128>)
    ensures
        forall|i: int| 0 <= i < first_distinct(w).len() ==> #[trigger] met_in_order(w, first_distinct(w), i),
    decreases w.len(),
{
    if w.len() > 0 {
        let t = w.drop_last();
        lemma_first_distinct_witness(t);
        lemma_first_distinct(t);
        let dt = first_distinct(t);
        let d = first_distinct(w);
        assert forall|i: int| 0 <= i < d.len() implies #[trigger] met_in_order(w, d, i) by {
            if i < dt.len() {
                assert(met_in_order(t, dt, i));
                let q = choose|q: int| 0 <= q < t.len() && t[q] == dt[i] && #[trigger] first_met(t, dt.take(i), q);
                assert(d[i] == dt[i]);
                assert(d.take(i) =~= dt.take(i));
                assert(w[q] == t[q]);
                assert forall|q2: int| 0 <= q2 < q implies d.take(i).contains(#[trigger] w[q2]) by {
                    assert(w[q2] == t[q2]);
                    assert(dt.take(i).contains(t[q2]));
                }
                assert(first_met(w, d.take(i), q));
            } else {
                let q = w.len() - 1;
                assert(d.take(i) =~= dt);
                assert forall|q2: int| 0 <= q2 < q implies d.take(i).contains(#[trigger] w[q2]) by {
                    assert(w[q2] == t[q2]);
                    assert(t.contains(t[q2]));
                }
                assert(first_met(w, d.take(i), q));
            }
        }
    }
}

/// The `i`-th element of `d` is met in `w` at an index before which every element of
/// `w` is among the elements of `d` before it.
pub open spec fn met_in_order(w: Seq<u128>, d: Seq<u128>, i: int) -> bool {
    exists|q: int| 0 <= q < w.len() && w[q] == d[i] && #[trigger] first_met(w, d.take(i), q)
}

/// Every element of `w` before index `q` is among `seen`.
pub open spec fn first_met(w: Seq<u128>, seen: Seq<u128>, q: int) -> bool {
    forall|q2: int| 0 <= q2 < q ==> seen.contains(#[trigger] w[q2])
}

/// The preference list walks the ring clockwise from the list's position: its `i`-th
/// server is new (not among the servers before it) and owns a position that the walk
/// from `h` meets no later than any position of a server not yet listed.
pub proof fn lemma_preference_clockwise(s: Seq<(u128, u128)>, h: u128, replicas: nat)
    requires
        sorted(s),
    ensures
        ({
            let r = preference_spec(s, h, replicas);
            forall|i: int|
                0 <= i < r.len() ==> !r.take(i).contains(#[trigger] r[i]) && exists|k: int|
                    0 <= k < s.len() && s[k].1 == r[i] && forall|m: int|
                        0 <= m < s.len() && !r.take(i).contains(#[trigger] s[m].1) ==> !walk_before(
                            s[m].0,
                            s[k].0,
                            h,
                        )
        }),
{
    let st = lemma_hash_start(s, h);
    let len = s.len() as int;
    let w = clockwise(s, h);
    let g = nodes_of(s.skip(st));
    assert(w == g + nodes_of(s));
    assert(w.len() == (len - st) + len);
    assert forall|j: int| st <= j < len implies (#[trigger] s[j]).0 >= h by {
        if j > st {
            assert(s[st].0 < s[j].0);
        }
    }
    lemma_first_distinct(w);
    lemma_first_distinct_witness(w);
    let d = first_distinct(w);
    let r = preference_spec(s, h, replicas);
    assert forall|i: int| 0 <= i < r.len() implies !r.take(i).contains(#[trigger] r[i]) && exists|k: int|
        0 <= k < s.len() && s[k].1 == r[i] && forall|m: int|
            0 <= m < s.len() && !r.take(i).contains(#[trigger] s[m].1) ==> !walk_before(s[m].0, s[k].0, h) by {
        assert(r[i] == d[i]);
        assert(r.take(i) =~= d.take(i));
        if d.take(i).contains(d[i]) {
            let j = choose|j: int| 0 <= j < i && d.take(i)[j] == d[i];
            assert(d[j] == d[i]);
        }
        assert(met_in_order(w, d, i));
        let q = choose|q: int| 0 <= q < w.len() && w[q] == d[i] && #[trigger] first_met(w, d.take(i), q);
        let k = if q < len - st { st + q } else { q - (len - st) };
        if q < len - st {
            assert(w[q] == g[q]);
            assert(g[q] == s[st + q].1);
        } else {
            assert(w[q] == nodes_of(s)[q - (len - st)]);
            if k >= st {
                assert(w[k - st] == g[k - st]);
                assert(g[k - st] == s[k].1);
                assert(d.take(i).contains(w[k - st]));
            }
        }
        assert(s[k].1 == r[i]);
        assert forall|m: int| 0 <= m < s.len() && !r.take(i).contains(#[trigger] s[m].1) implies !walk_before(
            s[m].0,
            s[k].0,
            h,
        ) by {
            let cm = if m >= st { m - st } else { len - st + m };
            if m >= st {
                assert(w[cm] == g[cm]);
                assert(g[cm] == s[m].1);
            } else {
                assert(w[cm] == nodes_of(s)[m]);
            }
            if cm < q {
                assert(d.take(i).contains(w[cm]));
            }
            if m != k {
                if m < k {
                    assert(s[m].0 < s[k].0);
                } else {
                    assert(s[k].0 < s[m].0);
                }
            }
        }
    }
}

/// Index of the first entry that `node` owns, or the length where it owns none.
proof fn lemma_first_owner(s: Seq<(u128, u128)>, node: u128) -> (i: int)
    ensures
        0 <= i <= s.len(),
        forall|j: int| 0 <= j < i ==> (#[trigger] s[j]).1 != node,
        i < s.len() ==> s[i].1 == node,
    decreases s.len(),
{
    if s.len() == 0 || s[0].1 == node {
        0
    } else {
        let t = s.drop_first();
        let r = lemma_first_owner(t, node);
        assert forall|j: int| 0 <= j < r + 1 implies (#[trigger] s[j]).1 != node by {
            if j > 0 {
                assert(s[j] == t[j - 1]);
            }
        }
        if r + 1 < s.len() {
            assert(s[r + 1] == t[r]);
        }
        r + 1
    }
}

/// Index of the first element of `w` other than `node`, or the length where there is none.
proof fn lemma_first_not(w: Seq<u128>, node: u128) -> (p: int)
    ensures
        0 <= p <= w.len(),
        forall|q: int| 0 <= q < p ==> #[trigger] w[q] == node,
        p < w.len() ==> w[p] != node,
    decreases w.len(),
{
    if w.len() == 0 || w[0] != node {
        0
    } else {
        let t = w.drop_first();
        let r = lemma_first_not(t, node);
        assert forall|q: int| 0 <= q < r + 1 implies #[trigger] w[q] == node by {
            if q > 0 {
                assert(w[q] == t[q - 1]);
            }
        }
        if r + 1 < w.len() {
            assert(w[r + 1] == t[r]);
        }
        r + 1
    }
}

/// The server `next_node` gives follows `node` clockwise: it is another server, and it
/// owns a position that the walk from just after `node`'s lowest position meets no
/// later than any position of a server other than `node`. There is none exactly when
/// `node` owns no position or owns them all.
pub proof fn lemma_next_clockwise(s: Seq<(u128, u128)>, node: u128)
    requires
        sorted(s),
    ensures
        next_spec(s, node) is None <==> (forall|k: int| 0 <= k < s.len() ==> (#[trigger] s[k]).1 != node)
            || (forall|k: int| 0 <= k < s.len() ==> (#[trigger] s[k]).1 == node),
        next_spec(s, node) matches Some(x) ==> x != node && exists|j: int, k: int|
            0 <= j < s.len() && 0 <= k < s.len() && s[j].1 == node && s[k].1 == x && (forall|j2: int|
                0 <= j2 < s.len() && (#[trigger] s[j2]).1 == node ==> s[j].0 <= s[j2].0) && (forall|m: int|
                0 <= m < s.len() && (#[trigger] s[m]).1 != node ==> !walk_after_before(s[m].0, s[k].0, s[j].0)),
{
    let len = s.len() as int;
    let i = lemma_first_owner(s, node);
    lemma_first_vnode_at(s, node, i);
    if i == len {
        return;
    }
    let f = s[i].0;
    assert forall|j: int| 0 <= j < i + 1 implies (#[trigger] s[j]).0 <= f by {
        if j < i {
            assert(s[j].0 < s[i].0);
        }
    }
    if i + 1 < len {
        assert(s[i].0 < s[i + 1].0);
    }
    lemma_after_hash_skip(s, f, i + 1);
    assert forall|j: int| i + 1 <= j < len implies (#[trigger] s[j]).0 > f by {
        assert(s[i].0 < s[j].0);
    }
    let g = nodes_of(s.skip(i + 1));
    let w = g + nodes_of(s);
    let a = len - (i + 1);
    assert(w.len() == a + len);
    let p = lemma_first_not(w, node);
    lemma_first_other_at(w, node, p);
    if p == w.len() {
        assert forall|k: int| 0 <= k < s.len() implies (#[trigger] s[k]).1 == node by {
            assert(w[a + k] == nodes_of(s)[k]);
        }
        return;
    }
    let x = w[p];
    let k = if p < a { i + 1 + p } else { p - a };
    if p < a {
        assert(w[p] == g[p]);
        assert(g[p] == s[i + 1 + p].1);
    } else {
        assert(w[p] == nodes_of(s)[p - a]);
        if k > i {
            assert(w[k - (i + 1)] == g[k - (i + 1)]);
            assert(g[k - (i + 1)] == s[k].1);
        }
    }
    assert(s[k].1 == x);
    assert(s[i].1 == node && s[k].1 != node) by {
        assert(s[i].1 == node);
    }
    assert forall|j2: int| 0 <= j2 < s.len() && (#[trigger] s[j2]).1 == node implies s[i].0 <= s[j2].0 by {
        if j2 < i {
            assert(s[j2].1 != node);
        } else if j2 > i {
            assert(s[i].0 < s[j2].0);
        }
    }
    assert forall|m: int| 0 <= m < s.len() && (#[trigger] s[m]).1 != node implies !walk_after_before(
        s[m].0,
        s[k].0,
        s[i].0,
    ) by {
        let cm = if m > i { m - (i + 1) } else { a + m };
        if m > i {
            assert(w[cm] == g[cm]);
            assert(g[cm] == s[m].1);
        } else {
            assert(w[cm] == nodes_of(s)[m]);
        }
        if cm < p {
            assert(w[cm] == node);
        }
        if m != k {
            if m < k {
                assert(s[m].0 < s[k].0);
            } else {
                assert(s[k].0 < s[m].0);
            }
        }
    }
    assert(exists|j: int, k2: int|
        0 <= j < s.len() && 0 <= k2 < s.len() && s[j].1 == node && s[k2].1 == x && (forall|j2: int|
            0 <= j2 < s.len() && (#[trigger] s[j2]).1 == node ==> s[j].0 <= s[j2].0) && (forall|m: int|
            0 <= m < s.len() && (#[trigger] s[m]).1 != node ==> !walk_after_before(s[m].0, s[k2].0, s[j].0))) by {
        assert(0 <= i < s.len() && 0 <= k < s.len());
    }
}


/// Placement of server replicas on a ring of 128-bit positions. Each server owns
/// `virtual_nodes` positions; a shopping list is stored on the servers that follow
/// its position clockwise.
pub struct HashRing {
    ring: Vec<(u128, u128)>,
    virtual_nodes: usize,
    replicas: usize,
}

impl View for HashRing {
    type V = Map<u128, u128>;

    /// Which server owns each occupied position.
    closed spec fn view(&self) -> Map<u128, u128> {
        to_map(self.ring@)
    }
}

impl HashRing {
    pub closed spec fn wf(&self) -> bool {
        sorted(self.ring@) && placed_by_owner(to_map(self.ring@), self.virtual_nodes as nat)
    }

    /// The occupied positions with their servers, in increasing position order.
    pub closed spec fn listing(&self) -> Seq<(u128, u128)> {
        self.ring@
    }

    pub closed spec fn vnode_count(&self) -> nat {
        self.virtual_nodes as nat
    }

    pub closed spec fn replica_count(&self) -> nat {
        self.replicas as nat
    }

    /// The servers with at least one position on the ring.
    pub open spec fn servers(&self) -> Set<u128> {
        self@.values()
    }

    /// The listing is in increasing position order and describes the ring.
    pub proof fn lemma_listing(&self)
        requires
            self.wf(),
        ensures
            sorted(self.listing()),
            to_map(self.listing()) == self@,
    {
    }

    pub fn new(virtual_nodes: usize, replicas: usize) -> (r: Self)
        ensures
            r.wf(),
            r@ == Map::<u128, u128>::empty(),
            r.vnode_count() == virtual_nodes,
            r.replica_count() == replicas,
    {
        let r = HashRing { ring: Vec::new(), virtual_nodes, replicas };
        proof {
            lemma_to_map_empty(r.ring@);
        }
        r
    }

    /// Digest of `key`: MD5 of its bytes, as a big-endian integer.
    pub fn hash(key: &str) -> (r: u128)
        ensures
            r == md5_value(key@),
    {
        md5_of(key)
    }

    /// Places the virtual nodes of `node_id` on the ring.
    pub fn add_node(&mut self, node_id: u128)
        requires
            old(self).wf(),
        ensures
            final(self).wf(),
            final(self)@ == with_vnodes(old(self)@, node_id, old(self).vnode_count()),
            final(self).vnode_count() == old(self).vnode_count(),
            final(self).replica_count() == old(self).replica_count(),
            old(self).vnode_count() > 0 ==> final(self).servers().contains(node_id),
    {
        let mut i: usize = 0;
        while i < self.virtual_nodes
            invariant
                i <= self.virtual_nodes,
                self.virtual_nodes == old(self).virtual_nodes,
                self.replicas == old(self).replicas,
                sorted(self.ring@),
                placed_by_owner(to_map(self.ring@), self.virtual_nodes as nat),
                to_map(self.ring@) == with_vnodes(old(self)@, node_id, i as nat),
            decreases self.virtual_nodes - i,
        {
            let key = uuid_dash_index(node_id, i);
            let hash = HashRing::hash(key.as_str());
            let ghost before = to_map(self.ring@);
            sm_insert(&mut self.ring, hash, node_id);
            proof {
                let m = to_map(self.ring@);
                assert forall|h: u128| #[trigger] m.dom().contains(h) implies exists|j: nat|
                    j < self.virtual_nodes as nat && h == vnode_hash(m[h], j) by {
                    if h == hash {
                        assert(m[h] == node_id);
                        assert(h == vnode_hash(m[h], i as nat));
                    } else {
                        assert(before.dom().contains(h));
                        let j = choose|j: nat| j < self.virtual_nodes as nat && h == vnode_hash(before[h], j);
                        assert(m[h] == before[h]);
                        assert(h == vnode_hash(m[h], j));
                    }
                }
            }
            i = i + 1;
        }
        proof {
            if self.virtual_nodes > 0 {
                let h = vnode_hash(node_id, (self.virtual_nodes - 1) as nat);
                assert(self@[h] == node_id);
                assert(self@.contains_key(h));
            }
        }
    }

    /// Places the virtual nodes of each server of `nodes`, in order.
    pub fn add_nodes(&mut self, nodes: &Vec<u128>)
        requires
            old(self).wf(),
        ensures
            final(self).wf(),
            final(self)@ == with_servers(old(self)@, nodes@, old(self).vnode_count()),
            final(self).vnode_count() == old(self).vnode_count(),
            final(self).replica_count() == old(self).replica_count(),
    {
        let mut i: usize = 0;
        while i < nodes.len()
            invariant
                i <= nodes.len(),
                self.wf(),
                self.vnode_count() == old(self).vnode_count(),
                self.replica_count() == old(self).replica_count(),
                self@ == with_servers(old(self)@, nodes@.take(i as int), old(self).vnode_count()),
            decreases nodes.len() - i,
        {
            self.add_node(nodes[i]);
            proof {
                assert(nodes@.take(i + 1).drop_last() =~= nodes@.take(i as int));
            }
            i = i + 1;
        }
        proof {
            assert(nodes@.take(nodes.len() as int) =~= nodes@);
        }
    }

    /// Clears the positions of the virtual nodes of `node_id`.
    pub fn remove_node(&mut self, node_id: u128)
        requires
            old(self).wf(),
        ensures
            final(self).wf(),
            final(self)@ == without_vnodes(old(self)@, node_id, old(self).vnode_count()),
            final(self).vnode_count() == old(self).vnode_count(),
            final(self).replica_count() == old(self).replica_count(),
            !final(self).servers().contains(node_id),
    {
        let mut i: usize = 0;
        while i < self.virtual_nodes
            invariant
                i <= self.virtual_nodes,
                self.virtual_nodes == old(self).virtual_nodes,
                self.replicas == old(self).replicas,
                sorted(self.ring@),
                placed_by_owner(to_map(self.ring@), self.virtual_nodes as nat),
                to_map(self.ring@) == without_vnodes(old(self)@, node_id, i as nat),
            decreases self.virtual_nodes - i,
        {
            let key = uuid_dash_index(node_id, i);
            let hash = HashRing::hash(key.as_str());
            let ghost before = to_map(self.ring@);
            sm_remove(&mut self.ring, hash);
            proof {
                let m = to_map(self.ring@);
                assert forall|h: u128| #[trigger] m.dom().contains(h) implies exists|j: nat|
                    j < self.virtual_nodes as nat && h == vnode_hash(m[h], j) by {
                    assert(before.dom().contains(h));
                    let j = choose|j: nat| j < self.virtual_nodes as nat && h == vnode_hash(before[h], j);
                    assert(m[h] == before[h]);
                    assert(h == vnode_hash(m[h], j));
                }
            }
            i = i + 1;
        }
        proof {
            let m = self@;
            lemma_without_vnodes(old(self)@, node_id, self.virtual_nodes as nat);
            if m.values().contains(node_id) {
                let h = choose|h: u128| m.dom().contains(h) && m[h] == node_id;
                let j = choose|j: nat| j < self.virtual_nodes as nat && h == vnode_hash(m[h], j);
                assert(!m.dom().contains(vnode_hash(node_id, j)));
            }
        }
    }

    /// The servers that store the list `list_id`: the first distinct servers met
    /// clockwise from the list's position, as many as the replication factor asks
    /// (at least one) or all there are.
    pub fn get_preference_list(&self, list_id: &u128) -> (r: Vec<u128>)
        requires
            self.wf(),
        ensures
            r@ == preference_spec(self.listing(), list_hash(*list_id), self.replica_count()),
            r@.no_duplicates(),
            forall|i: int| 0 <= i < r.len() ==> self.servers().contains(#[trigger] r@[i]),
            r.len() == if self.servers().len() <= wanted(self.replica_count()) {
                self.servers().len()
            } else {
                wanted(self.replica_count())
            },
            forall|i: int|
                #![trigger r@[i]]
                0 <= i < r.len() ==> exists|k: int|
                    0 <= k < self.listing().len() && self.listing()[k].1 == r@[i] && forall|m: int|
                        0 <= m < self.listing().len() && !r@.take(i).contains(
                            #[trigger] self.listing()[m].1,
                        ) ==> !walk_before(
                            self.listing()[m].0,
                            self.listing()[k].0,
                            list_hash(*list_id),
                        ),
    {
        let text = uuid_string(*list_id);
        let hash = HashRing::hash(text.as_str());
        let ghost s = self.ring@;
        let ghost w = clockwise(s, hash);
        let n = self.ring.len();
        let mut start: usize = 0;
        while start < n && self.ring[start].0 < hash
            invariant
                start <= n,
                n == s.len(),
                s == self.ring@,
                forall|j: int| 0 <= j < start ==> (#[trigger] s[j]).0 < hash,
            decreases n - start,
        {
            start = start + 1;
        }
        proof {
            lemma_from_hash_skip(s, hash, start as int);
        }
        let want: usize = if self.replicas == 0 {
            1
        } else {
            self.replicas
        };
        let first_len = n - start;
        let mut result: Vec<u128> = Vec::new();
        let mut done = false;
        let mut second = first_len == 0;
        let mut idx: usize = 0;
        let ghost mut p: int = 0;
        proof {
            assert(w.take(0) =~= Seq::<u128>::empty());
        }
        while !(second && idx == n) && !done
            invariant
                s == self.ring@,
                n == s.len(),
                start <= n,
                first_len == n - start,
                w == nodes_of(s.skip(start as int)) + nodes_of(s),
                w.len() == first_len + n,
                want == wanted(self.replicas as nat),
                p == (if second { first_len + idx } else { idx as int }),
                !second ==> idx < first_len,
                second ==> idx <= n,
                0 <= p <= w.len(),
                result@ == first_distinct(w.take(p)),
                result.len() <= want,
                !done ==> result.len() < want,
                done ==> result.len() == want,
            decreases w.len() - p,
        {
            {
                let x = if !second {
                    self.ring[start + idx].1
                } else {
                    self.ring[idx].1
                };
                proof {
                    if !second {
                        assert(w[p] == nodes_of(s.skip(start as int))[p]);
                    } else {
                        assert(w[p] == nodes_of(s)[idx as int]);
                    }
                    assert(w[p] == x);
                    assert(w.take(p + 1).drop_last() =~= w.take(p));
                }
                if !contains_id(&result, x) {
                    result.push(x);
                    if result.len() >= want {
                        done = true;
                    }
                }
                idx = idx + 1;
                proof {
                    p = p + 1;
                }
                if !second && idx == first_len {
                    second = true;
                    idx = 0;
                }
            }
        }
        proof {
            lemma_first_distinct(w);
            lemma_clockwise_servers(s, hash);
            let d = first_distinct(w);
            d.unique_seq_to_set();
            assert(d.to_set() =~= w.to_set());
            lemma_first_distinct_prefix(w, p);
            if !done {
                assert(w.take(p) =~= w);
            } else {
                assert(d.take(want as int) =~= result@);
            }
            assert forall|i: int| 0 <= i < result.len() implies self.servers().contains(#[trigger] result@[i]) by {
                assert(d.contains(result@[i]));
                assert(w.to_set().contains(result@[i]));
            }
        }
        proof {
            assert(result@ == preference_spec(s, hash, self.replicas as nat));
            assert(hash == list_hash(*list_id));
            lemma_preference_clockwise(s, hash, self.replicas as nat);
            let r = preference_spec(s, hash, self.replicas as nat);
            assert(self.listing() == s);
            assert forall|i: int| #![trigger result@[i]] 0 <= i < result.len() implies exists|k: int|
                0 <= k < self.listing().len() && self.listing()[k].1 == result@[i] && forall|m: int|
                    0 <= m < self.listing().len() && !result@.take(i).contains(
                        #[trigger] self.listing()[m].1,
                    ) ==> !walk_before(self.listing()[m].0, self.listing()[k].0, list_hash(*list_id)) by {
                assert(r[i] == result@[i]);
                assert(r.take(i) == result@.take(i));
                assert(!r.take(i).contains(r[i]));
            }
        }
        result
    }

    /// The first server of the preference list, if there is one.
    pub fn get_coordinator(&self, list_id: &u128) -> (r: Option<u128>)
        requires
            self.wf(),
        ensures
            r == (if preference_spec(self.listing(), list_hash(*list_id), self.replica_count()).len()
                > 0 {
                Some(preference_spec(self.listing(), list_hash(*list_id), self.replica_count())[0])
            } else {
                None
            }),
            r is None <==> self.servers().len() == 0,
    {
        let list = self.get_preference_list(list_id);
        if list.len() > 0 {
            Some(list[0])
        } else {
            None
        }
    }

    /// The set of servers on the ring.
    pub fn get_all_servers(&self) -> (r: HashSet<u128>)
        requires
            self.wf(),
        ensures
            r@ == self.servers(),
    {
        broadcast use vstd::std_specs::hash::group_hash_axioms;

        let ghost s = self.ring@;
        let mut set: HashSet<u128> = HashSet::new();
        let mut i: usize = 0;
        while i < self.ring.len()
            invariant
                s == self.ring@,
                i <= s.len(),
                set@ == nodes_of(s.take(i as int)).to_set(),
            decreases s.len() - i,
        {
            set.insert(self.ring[i].1);
            proof {
                assert(nodes_of(s.take(i + 1)) =~= nodes_of(s.take(i as int)).push(s[i as int].1));
                assert(nodes_of(s.take(i + 1)).to_set() =~= nodes_of(s.take(i as int)).to_set().insert(
                    s[i as int].1,
                )) by {
                    let a = nodes_of(s.take(i as int));
                    assert forall|x: u128| a.push(s[i as int].1).contains(x) <==> a.contains(x) || x
                        == s[i as int].1 by {
                        if a.push(s[i as int].1).contains(x) {
                            let j = choose|j: int| 0 <= j < a.len() + 1 && a.push(s[i as int].1)[j] == x;
                            if j < a.len() {
                                assert(a[j] == x);
                            }
                        }
                        if a.contains(x) {
                            let j = choose|j: int| 0 <= j < a.len() && a[j] == x;
                            assert(a.push(s[i as int].1)[j] == x);
                        }
                        assert(a.push(s[i as int].1)[a.len() as int] == s[i as int].1);
                    }
                }
            }
            i = i + 1;
        }
        proof {
            assert(s.take(s.len() as int) =~= s);
            lemma_to_map_entries(s);
            assert forall|x: u128| #[trigger] set@.contains(x) <==> self@.values().contains(x) by {
                if set@.contains(x) {
                    let j = choose|j: int| 0 <= j < nodes_of(s).len() && nodes_of(s)[j] == x;
                    assert(to_map(s)[s[j].0] == s[j].1);
                }
                if self@.values().contains(x) {
                    let k = choose|k: u128| to_map(s).dom().contains(k) && to_map(s)[k] == x;
                    let q = choose|q: int| 0 <= q < s.len() && #[trigger] s[q].0 == k;
                    assert(nodes_of(s)[q] == x);
                }
            }
            assert(set@ =~= self.servers());
        }
        set
    }

    /// Number of distinct servers on the ring.
    pub fn server_count(&self) -> (r: usize)
        requires
            self.wf(),
        ensures
            r == self.servers().len(),
    {
        self.get_all_servers().len()
    }

    /// The server met first, clockwise from the first virtual node of `node_id`,
    /// that is not `node_id`; none where `node_id` has no position or is alone.
    pub fn next_node(&self, node_id: &u128) -> (r: Option<u128>)
        requires
            self.wf(),
        ensures
            r == next_spec(self.listing(), *node_id),
            r is None <==> (forall|k: int|
                0 <= k < self.listing().len() ==> (#[trigger] self.listing()[k]).1 != *node_id) || (
            forall|k: int| 0 <= k < self.listing().len() ==> (#[trigger] self.listing()[k]).1 == *node_id),
            r matches Some(x) ==> x != *node_id && exists|j: int, k: int|
                0 <= j < self.listing().len() && 0 <= k < self.listing().len() && self.listing()[j].1
                    == *node_id && self.listing()[k].1 == x && (forall|j2: int|
                    0 <= j2 < self.listing().len() && (#[trigger] self.listing()[j2]).1 == *node_id
                        ==> self.listing()[j].0 <= self.listing()[j2].0) && (forall|m: int|
                    0 <= m < self.listing().len() && (#[trigger] self.listing()[m]).1 != *node_id
                        ==> !walk_after_before(
                        self.listing()[m].0,
                        self.listing()[k].0,
                        self.listing()[j].0,
                    )),
    {
        let ghost s = self.ring@;
        let n = self.ring.len();
        let mut i: usize = 0;
        while i < n && self.ring[i].1 != *node_id
            invariant
                s == self.ring@,
                sorted(s),
                n == s.len(),
                i <= n,
                forall|j: int| 0 <= j < i ==> (#[trigger] s[j]).1 != *node_id,
            decreases n - i,
        {
            i = i + 1;
        }
        proof {
            lemma_first_vnode_at(s, *node_id, i as int);
        }
        if i == n {
            proof {
                lemma_next_clockwise(s, *node_id);
            }
            return None;
        }
        let start = self.ring[i].0;
        proof {
            assert forall|j: int| 0 <= j < i + 1 implies (#[trigger] s[j]).0 <= start by {
                if j < i {
                    assert(s[j].0 < s[i as int].0);
                }
            }
            if i + 1 < n {
                assert(s[i as int].0 < s[i + 1].0);
            }
            lemma_after_hash_skip(s, start, i + 1);
        }
        let ghost w = nodes_of(s.skip(i + 1)) + nodes_of(s);
        let first_len = n - (i + 1);
        let mut second = false;
        let mut idx: usize = 0;
        let ghost mut p: int = 0;
        if first_len == 0 {
            second = true;
        }
        while !(second && idx == n)
            invariant
                s == self.ring@,
                sorted(s),
                n == s.len(),
                i < n,
                first_len == n - (i + 1),
                w == nodes_of(s.skip(i + 1)) + nodes_of(s),
                w.len() == first_len + n,
                first_vnode(s, *node_id) == Some(start),
                after_hash(s, start) == s.skip(i + 1),
                p == (if second { first_len + idx } else { idx as int }),
                !second ==> idx < first_len,
                second ==> idx <= n,
                0 <= p <= w.len(),
                forall|j: int| 0 <= j < p ==> #[trigger] w[j] == *node_id,
            decreases w.len() - p,
        {
            let x = if !second {
                self.ring[i + 1 + idx].1
            } else {
                self.ring[idx].1
            };
            proof {
                if !second {
                    assert(w[p] == nodes_of(s.skip(i + 1))[p]);
                } else {
                    assert(w[p] == nodes_of(s)[idx as int]);
                }
                assert(w[p] == x);
            }
            if x != *node_id {
                proof {
                    lemma_first_other_at(w, *node_id, p);
                    assert(first_vnode(s, *node_id) == Some(start));
                    assert(after_hash(s, start) == s.skip(i + 1));
                    assert(first_other(w, *node_id) == Some(x));
                    lemma_next_clockwise(s, *node_id);
                }
                return Some(x);
            }
            idx = idx + 1;
            proof {
                p = p + 1;
            }
            if !second && idx == first_len {
                second = true;
                idx = 0;
            }
        }
        proof {
            lemma_first_other_at(w, *node_id, p);
            lemma_next_clockwise(s, *node_id);
        }
        None
    }

    /// The servers of the ring entries, in increasing position order.
    pub fn ring_nodes(&self) -> (r: Vec<u128>)
        ensures
            r@ == nodes_of(self.listing()),
    {
        let mut r: Vec<u128> = Vec::new();
        let mut i: usize = 0;
        while i < self.ring.len()
            invariant
                i <= self.ring@.len(),
                r@ == nodes_of(self.ring@.take(i as int)),
            decreases self.ring@.len() - i,
        {
            r.push(self.ring[i].1);
            proof {
                assert(nodes_of(self.ring@.take(i + 1)) =~= nodes_of(self.ring@.take(i as int)).push(
                    self.ring@[i as int].1,
                ));
            }
            i = i + 1;
        }
        proof {
            assert(self.ring@.take(self.ring@.len() as int) =~= self.ring@);
        }
        r
    }
}

/// Whether `x` occurs in `v`.
fn contains_id(v: &Vec<u128>, x: u128) -> (r: bool)
    ensures
        r == v@.contains(x),
{
    let mut i: usize = 0;
    while i < v.len()
        invariant
            i <= v.len(),
            forall|j: int| 0 <= j < i ==> v@[j] != x,
        decreases v.len() - i,
    {
        if v[i] == x {
            return true;
        }
        i = i + 1;
    }
    false
}

} // verus!
