//! The replication requests a coordinator is waiting on, by request id.
use vstd::prelude::*;
use crate::crdt::ShoppingList;
use crate::server::QuoromState;

verus! {

/// No two entries carry the same request id.
pub open spec fn ids_distinct<V>(s: Seq<(String, V)>) -> bool {
    forall|i: int, j: int| 0 <= i < j < s.len() ==> (#[trigger] s[i]).0@ != (#[trigger] s[j]).0@
}

/// Some entry carries the id `k`.
pub open spec fn has_id<V>(s: Seq<(String, V)>, k: Seq<char>) -> bool {
    exists|i: int| 0 <= i < s.len() && (#[trigger] s[i]).0@ == k
}

/// The map from ids to values that the entries describe.
pub open spec fn keyed<V>(s: Seq<(String, V)>) -> Map<Seq<char>, V> {
    Map::new(
        |k: Seq<char>| has_id(s, k),
        |k: Seq<char>| s[choose|i: int| 0 <= i < s.len() && (#[trigger] s[i]).0@ == k].1,
    )
}

proof fn lemma_keyed_index<V>(s: Seq<(String, V)>, i: int)
    requires
        ids_distinct(s),
        0 <= i < s.len(),
    ensures
        keyed(s).dom().contains(s[i].0@),
        keyed(s)[s[i].0@] == s[i].1,
{
    let k = s[i].0@;
    assert(has_id(s, k));
    let j = choose|j: int| 0 <= j < s.len() && (#[trigger] s[j]).0@ == k;
    if j != i {
        if j < i {
            assert(s[j].0@ != s[i].0@);
        } else {
            assert(s[i].0@ != s[j].0@);
        }
    }
}

/// Replacing the value of entry `j`, under the same id, sets that id's value.
proof fn lemma_keyed_update<V>(s: Seq<(String, V)>, j: int, e: (String, V))
    requires
        ids_distinct(s),
        0 <= j < s.len(),
        e.0@ == s[j].0@,
    ensures
        ids_distinct(s.update(j, e)),
        keyed(s.update(j, e)) == keyed(s).insert(e.0@, e.1),
{
    let t = s.update(j, e);
    assert forall|a: int, b: int| 0 <= a < b < t.len() implies (#[trigger] t[a]).0@ != (
    #[trigger] t[b]).0@ by {
        assert(s[a].0@ != s[b].0@);
    }
    assert forall|k: Seq<char>| #[trigger] keyed(t).dom().contains(k) <==> keyed(s).insert(
        e.0@,
        e.1,
    ).dom().contains(k) by {
        if has_id(t, k) {
            let i = choose|i: int| 0 <= i < t.len() && (#[trigger] t[i]).0@ == k;
            assert(s[i].0@ == t[i].0@);
        }
        if has_id(s, k) {
            let i = choose|i: int| 0 <= i < s.len() && (#[trigger] s[i]).0@ == k;
            assert(s[i].0@ == t[i].0@);
        }
        assert(t[j] == e);
    }
    assert forall|k: Seq<char>| #[trigger] keyed(t).dom().contains(k) implies keyed(t)[k] == keyed(
        s,
    ).insert(e.0@, e.1)[k] by {
        let i = choose|i: int| 0 <= i < t.len() && (#[trigger] t[i]).0@ == k;
        lemma_keyed_index(t, i);
        if i != j {
            assert(t[i] == s[i]);
            lemma_keyed_index(s, i);
        }
    }
    assert(keyed(t) =~= keyed(s).insert(e.0@, e.1));
}

/// Appending an entry under a new id adds that id.
proof fn lemma_keyed_push<V>(s: Seq<(String, V)>, e: (String, V))
    requires
        ids_distinct(s),
        !has_id(s, e.0@),
    ensures
        ids_distinct(s.push(e)),
        keyed(s.push(e)) == keyed(s).insert(e.0@, e.1),
{
    let t = s.push(e);
    assert forall|a: int, b: int| 0 <= a < b < t.len() implies (#[trigger] t[a]).0@ != (
    #[trigger] t[b]).0@ by {
        assert(t[a] == s[a]);
        if b < s.len() {
            assert(t[b] == s[b]);
        } else if s[a].0@ == e.0@ {
            assert(has_id(s, e.0@));
        }
    }
    assert forall|k: Seq<char>| #[trigger] keyed(t).dom().contains(k) <==> keyed(s).insert(
        e.0@,
        e.1,
    ).dom().contains(k) by {
        if has_id(t, k) && k != e.0@ {
            let i = choose|i: int| 0 <= i < t.len() && (#[trigger] t[i]).0@ == k;
            assert(t[i] == s[i]);
        }
        if has_id(s, k) {
            let i = choose|i: int| 0 <= i < s.len() && (#[trigger] s[i]).0@ == k;
            assert(t[i] == s[i]);
        }
        assert(t[s.len() as int] == e);
    }
    assert forall|k: Seq<char>| #[trigger] keyed(t).dom().contains(k) implies keyed(t)[k] == keyed(
        s,
    ).insert(e.0@, e.1)[k] by {
        let i = choose|i: int| 0 <= i < t.len() && (#[trigger] t[i]).0@ == k;
        lemma_keyed_index(t, i);
        if i < s.len() {
            assert(t[i] == s[i]);
            lemma_keyed_index(s, i);
        }
    }
    assert(keyed(t) =~= keyed(s).insert(e.0@, e.1));
}

/// Removing entry `j` removes its id.
proof fn lemma_keyed_remove<V>(s: Seq<(String, V)>, j: int)
    requires
        ids_distinct(s),
        0 <= j < s.len(),
    ensures
        ids_distinct(s.remove(j)),
        keyed(s.remove(j)) == keyed(s).remove(s[j].0@),
{
    let t = s.remove(j);
    assert forall|a: int, b: int| 0 <= a < b < t.len() implies (#[trigger] t[a]).0@ != (
    #[trigger] t[b]).0@ by {
        let sa = if a < j { a } else { a + 1 };
        let sb = if b < j { b } else { b + 1 };
        assert(t[a] == s[sa]);
        assert(t[b] == s[sb]);
        assert(s[sa].0@ != s[sb].0@);
    }
    assert forall|k: Seq<char>| #[trigger] keyed(t).dom().contains(k) <==> keyed(s).remove(
        s[j].0@,
    ).dom().contains(k) by {
        if has_id(t, k) {
            let i = choose|i: int| 0 <= i < t.len() && (#[trigger] t[i]).0@ == k;
            let si = if i < j { i } else { i + 1 };
            assert(t[i] == s[si]);
            assert(s[si].0@ != s[j].0@) by {
                if si < j {
                    assert(s[si].0@ != s[j].0@);
                } else {
                    assert(s[j].0@ != s[si].0@);
                }
            }
        }
        if has_id(s, k) && k != s[j].0@ {
            let i = choose|i: int| 0 <= i < s.len() && (#[trigger] s[i]).0@ == k;
            assert(i != j);
            let ti = if i < j { i } else { i - 1 };
            assert(t[ti] == s[i]);
        }
    }
    assert forall|k: Seq<char>| #[trigger] keyed(t).dom().contains(k) implies keyed(t)[k] == keyed(
        s,
    ).remove(s[j].0@)[k] by {
        let i = choose|i: int| 0 <= i < t.len() && (#[trigger] t[i]).0@ == k;
        lemma_keyed_index(t, i);
        let si = if i < j { i } else { i + 1 };
        assert(t[i] == s[si]);
        lemma_keyed_index(s, si);
    }
    assert(keyed(t) =~= keyed(s).remove(s[j].0@));
}

/// `after` is `before` with one more answer counted, `list` (if any) gathered, and
/// `woken` the responder to wake: the one that waited, once the quorum is reached.
pub open spec fn answered(
    after: QuoromState,
    before: QuoromState,
    list: Option<ShoppingList>,
    woken: Option<oneshot::Sender<()>>,
) -> bool {
    &&& after.received_count() == before.received_count() + 1
    &&& after.needed_count() == before.needed_count()
    &&& after.gathered() == match list {
        Some(l) => before.gathered().push(l),
        None => before.gathered(),
    }
    &&& after.received_count() >= after.needed_count() ==> woken == before.waiting()
        && after.waiting() is None
    &&& after.received_count() < after.needed_count() ==> woken is None && after.waiting()
        == before.waiting()
}

/// The requests a coordinator waits on, by id.
pub struct InFlight {
    requests: Vec<(String, QuoromState)>,
}

impl InFlight {
    pub closed spec fn wf(&self) -> bool {
        ids_distinct(self.requests@)
    }

    /// The pending requests by id.
    pub closed spec fn pending(&self) -> Map<Seq<char>, QuoromState> {
        keyed(self.requests@)
    }

    pub fn new() -> (r: Self)
        ensures
            r.wf(),
            r.pending() == Map::<Seq<char>, QuoromState>::empty(),
    {
        let r = InFlight { requests: Vec::new() };
        assert(r.pending() =~= Map::<Seq<char>, QuoromState>::empty());
        r
    }

    /// Position of the request `id`, if it is pending.
    fn position(&self, id: &str) -> (r: Option<usize>)
        requires
            self.wf(),
        ensures
            match r {
                Some(j) => j < self.requests@.len() && self.requests@[j as int].0@ == id@,
                None => !self.pending().dom().contains(id@),
            },
    {
        let key: String = id.to_owned();
        let mut j: usize = 0;
        while j < self.requests.len()
            invariant
                key@ == id@,
                j <= self.requests@.len(),
                forall|x: int| 0 <= x < j ==> (#[trigger] self.requests@[x]).0@ != id@,
            decreases self.requests@.len() - j,
        {
            if self.requests[j].0 == key {
                return Some(j);
            }
            j = j + 1;
        }
        None
    }

    /// Starts waiting on the request `id` with `state`.
    pub fn start(&mut self, id: String, state: QuoromState)
        requires
            old(self).wf(),
        ensures
            final(self).wf(),
            final(self).pending() == old(self).pending().insert(id@, state),
    {
        match self.position(id.as_str()) {
            Some(j) => {
                let ghost s = self.requests@;
                let ghost e = (id, state);
                self.requests.set(j, (id, state));
                proof {
                    lemma_keyed_update(s, j as int, e);
                }
            },
            None => {
                let ghost s = self.requests@;
                let ghost e = (id, state);
                self.requests.push((id, state));
                proof {
                    lemma_keyed_push(s, e);
                }
            },
        }
    }

    /// Answers counted so far for the request `id`, if it is pending.
    pub fn received(&self, id: &str) -> (r: Option<usize>)
        requires
            self.wf(),
        ensures
            r == if self.pending().dom().contains(id@) {
                Some(self.pending()[id@].received_count() as usize)
            } else {
                None
            },
    {
        match self.position(id) {
            Some(j) => {
                proof {
                    lemma_keyed_index(self.requests@, j as int);
                }
                Some(self.requests[j].1.received())
            },
            None => None,
        }
    }

    /// Handles an answer to the request `id`, carrying `list` if it read one: `None`
    /// when no such request is pending; otherwise the answer is counted (and the list
    /// gathered), and the responder to wake, if the quorum was just reached, is
    /// handed out.
    pub fn answer(&mut self, id: &str, list: Option<ShoppingList>) -> (r: Option<
        Option<oneshot::Sender<()>>,
    >)
        requires
            old(self).wf(),
            old(self).pending().dom().contains(id@) ==> old(self).pending()[id@].received_count()
                < usize::MAX,
        ensures
            final(self).wf(),
            !old(self).pending().dom().contains(id@) ==> r is None,
            !old(self).pending().dom().contains(id@) ==> final(self).pending() == old(self).pending(),
            old(self).pending().dom().contains(id@) ==> final(self).pending() == old(self).pending().insert(id@, final(self).pending()[id@]),
            old(self).pending().dom().contains(id@) ==> (r matches Some(woken) && answered(final(self).pending()[id@], old(self).pending()[id@], list, woken)),
    {
        match self.position(id) {
            Some(j) => {
                proof {
                    lemma_keyed_index(self.requests@, j as int);
                }
                let ghost s = self.requests@;
                let woken = match list {
                    Some(l) => self.requests[j].1.acknowledge_with_list(l),
                    None => self.requests[j].1.acknowledge(),
                };
                proof {
                    assert(self.requests@ == s.update(j as int, self.requests@[j as int]));
                    lemma_keyed_update(s, j as int, self.requests@[j as int]);
                    lemma_keyed_index(self.requests@, j as int);
                }
                Some(woken)
            },
            None => None,
        }
    }

    /// Stops waiting on the request `id` and hands back its state, if it was pending.
    pub fn finish(&mut self, id: &str) -> (r: Option<QuoromState>)
        requires
            old(self).wf(),
        ensures
            final(self).wf(),
            final(self).pending() == old(self).pending().remove(id@),
            r == if old(self).pending().dom().contains(id@) {
                Some(old(self).pending()[id@])
            } else {
                None
            },
    {
        match self.position(id) {
            Some(j) => {
                let ghost s = self.requests@;
                proof {
                    lemma_keyed_index(s, j as int);
                    lemma_keyed_remove(s, j as int);
                }
                let (_, state) = self.requests.remove(j);
                Some(state)
            },
            None => {
                proof {
                    assert(self.pending().remove(id@) =~= self.pending());
                }
                None
            },
        }
    }
}

} // verus!
