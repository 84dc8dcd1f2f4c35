//! Map from item names to items; concurrent additions of a name are merged.
use vstd::prelude::*;
use crate::crdt::actor::Mergeable;
use crate::crdt::item::{
    item_join, lemma_item_join_associative, lemma_item_join_commutative, lemma_item_join_idempotent,
    Item, ItemView,
};
use crate::crdt::lwwreg::lww_compatible;
use crate::crdt::gcounter::map_total;

verus! {

/// No two entries carry the same name.
pub open spec fn distinct_names(s: Seq<(String, Item)>) -> bool {
    forall|i: int, j: int| 0 <= i < j < s.len() ==> (#[trigger] s[i]).0@ != (#[trigger] s[j]).0@
}

/// Some entry of `s` carries the name `k`.
pub open spec fn has_name(s: Seq<(String, Item)>, k: Seq<char>) -> bool {
    exists|i: int| 0 <= i < s.len() && (#[trigger] s[i]).0@ == k
}

/// The map from names to item states that the entries describe.
pub open spec fn entries_map(s: Seq<(String, Item)>) -> Map<Seq<char>, ItemView> {
    Map::new(
        |k: Seq<char>| has_name(s, k),
        |k: Seq<char>| s[choose|i: int| 0 <= i < s.len() && (#[trigger] s[i]).0@ == k].1@,
    )
}

/// Merge of two lists: every name of either, and for a name in both the merge of its two items.
pub open spec fn awor_join(a: Map<Seq<char>, ItemView>, b: Map<Seq<char>, ItemView>) -> Map<
    Seq<char>,
    ItemView,
> {
    Map::new(
        |k: Seq<char>| a.dom().contains(k) || b.dom().contains(k),
        |k: Seq<char>|
            if a.dom().contains(k) && b.dom().contains(k) {
                item_join(a[k], b[k])
            } else if a.dom().contains(k) {
                a[k]
            } else {
                b[k]
            },
    )
}

proof fn lemma_entries_index(s: Seq<(String, Item)>, i: int)
    requires
        distinct_names(s),
        0 <= i < s.len(),
    ensures
        entries_map(s).dom().contains(s[i].0@),
        entries_map(s)[s[i].0@] == s[i].1@,
{
    let k = s[i].0@;
    assert(has_name(s, k));
    let j = choose|j: int| 0 <= j < s.len() && (#[trigger] s[j]).0@ == k;
    if j != i {
        if j < i {
            assert(s[j].0@ != s[i].0@);
        } else {
            assert(s[i].0@ != s[j].0@);
        }
    }
}

proof fn lemma_entries_all(s: Seq<(String, Item)>)
    requires
        distinct_names(s),
    ensures
        forall|i: int|
            0 <= i < s.len() ==> entries_map(s).dom().contains((#[trigger] s[i]).0@)
                && entries_map(s)[s[i].0@] == s[i].1@,
{
    assert forall|i: int| 0 <= i < s.len() implies entries_map(s).dom().contains(
        (#[trigger] s[i]).0@,
    ) && entries_map(s)[s[i].0@] == s[i].1@ by {
        lemma_entries_index(s, i);
    }
}

/// Replacing the item of entry `j`, under the same name, replaces that name's state.
proof fn lemma_entries_update(s: Seq<(String, Item)>, j: int, e: (String, Item))
    requires
        distinct_names(s),
        0 <= j < s.len(),
        e.0@ == s[j].0@,
    ensures
        distinct_names(s.update(j, e)),
        entries_map(s.update(j, e)) == entries_map(s).insert(e.0@, e.1@),
{
    let t = s.update(j, e);
    assert forall|a: int, b: int| 0 <= a < b < t.len() implies (#[trigger] t[a]).0@ != (
    #[trigger] t[b]).0@ by {
        assert(s[a].0@ != s[b].0@);
    }
    lemma_entries_all(s);
    lemma_entries_all(t);
    assert forall|k: Seq<char>| #[trigger] entries_map(t).dom().contains(k) <==> entries_map(
        s,
    ).insert(e.0@, e.1@).dom().contains(k) by {
        if entries_map(t).dom().contains(k) {
            let i = choose|i: int| 0 <= i < t.len() && (#[trigger] t[i]).0@ == k;
            assert(s[i].0@ == t[i].0@);
        }
        if entries_map(s).dom().contains(k) {
            let i = choose|i: int| 0 <= i < s.len() && (#[trigger] s[i]).0@ == k;
            assert(s[i].0@ == t[i].0@);
        }
    }
    assert forall|k: Seq<char>| #[trigger] entries_map(t).dom().contains(k) implies entries_map(
        t,
    )[k] == entries_map(s).insert(e.0@, e.1@)[k] by {
        let i = choose|i: int| 0 <= i < t.len() && (#[trigger] t[i]).0@ == k;
        if i != j {
            assert(t[i] == s[i]);
        }
    }
    assert(entries_map(t) =~= entries_map(s).insert(e.0@, e.1@));
}

/// Appending an entry under a new name adds that name's state.
proof fn lemma_entries_push(s: Seq<(String, Item)>, e: (String, Item))
    requires
        distinct_names(s),
        !entries_map(s).dom().contains(e.0@),
    ensures
        distinct_names(s.push(e)),
        entries_map(s.push(e)) == entries_map(s).insert(e.0@, e.1@),
{
    let t = s.push(e);
    lemma_entries_all(s);
    assert forall|a: int, b: int| 0 <= a < b < t.len() implies (#[trigger] t[a]).0@ != (
    #[trigger] t[b]).0@ by {
        assert(t[a] == s[a]);
        if b < s.len() {
            assert(t[b] == s[b]);
        }
    }
    lemma_entries_all(t);
    assert forall|k: Seq<char>| #[trigger] entries_map(t).dom().contains(k) <==> entries_map(
        s,
    ).insert(e.0@, e.1@).dom().contains(k) by {
        if entries_map(t).dom().contains(k) && k != e.0@ {
            let i = choose|i: int| 0 <= i < t.len() && (#[trigger] t[i]).0@ == k;
            assert(t[i] == s[i]);
        }
        if entries_map(s).dom().contains(k) {
            let i = choose|i: int| 0 <= i < s.len() && (#[trigger] s[i]).0@ == k;
            assert(t[i] == s[i]);
        }
        assert(t[s.len() as int] == e);
    }
    assert forall|k: Seq<char>| #[trigger] entries_map(t).dom().contains(k) implies entries_map(
        t,
    )[k] == entries_map(s).insert(e.0@, e.1@)[k] by {
        let i = choose|i: int| 0 <= i < t.len() && (#[trigger] t[i]).0@ == k;
        if i < s.len() {
            assert(t[i] == s[i]);
        }
    }
    assert(entries_map(t) =~= entries_map(s).insert(e.0@, e.1@));
}

/// Growing a prefix of the entries by one adds that entry's name.
proof fn lemma_entries_take_next(s: Seq<(String, Item)>, i: int)
    requires
        distinct_names(s),
        0 <= i < s.len(),
    ensures
        !entries_map(s.take(i)).dom().contains(s[i].0@),
        entries_map(s.take(i + 1)) == entries_map(s.take(i)).insert(s[i].0@, s[i].1@),
{
    let a = s.take(i);
    assert forall|x: int, y: int| 0 <= x < y < a.len() implies (#[trigger] a[x]).0@ != (
    #[trigger] a[y]).0@ by {
        assert(a[x] == s[x] && a[y] == s[y]);
    }
    if entries_map(a).dom().contains(s[i].0@) {
        let j = choose|j: int| 0 <= j < a.len() && (#[trigger] a[j]).0@ == s[i].0@;
        assert(a[j] == s[j]);
        assert(s[j].0@ != s[i].0@);
    }
    lemma_entries_push(a, s[i]);
    assert(s.take(i + 1) =~= a.push(s[i]));
}

/// The replicas on whose behalf an item counts its increments and its decrements.
pub open spec fn item_owners(it: Item) -> (u128, u128) {
    (it.amount.inc_owner(), it.amount.dec_owner())
}

/// For each name of the entries, the owners of its item.
pub open spec fn entries_owners(s: Seq<(String, Item)>) -> Map<Seq<char>, (u128, u128)> {
    Map::new(
        |k: Seq<char>| has_name(s, k),
        |k: Seq<char>| item_owners(s[choose|i: int| 0 <= i < s.len() && (#[trigger] s[i]).0@ == k].1),
    )
}

/// The names of `a` followed by those names of `b` that are new, in `b`'s order.
pub open spec fn names_after(a: Seq<Seq<char>>, b: Seq<Seq<char>>) -> Seq<Seq<char>>
    decreases b.len(),
{
    if b.len() == 0 {
        a
    } else {
        let r = names_after(a, b.drop_last());
        if r.contains(b.last()) {
            r
        } else {
            r.push(b.last())
        }
    }
}

/// The names that merging the lists with names `lists[0]`, `lists[1]`, ... in turn gives.
pub open spec fn names_fold(lists: Seq<Seq<Seq<char>>>) -> Seq<Seq<char>>
    decreases lists.len(),
{
    if lists.len() <= 1 {
        lists[0]
    } else {
        names_after(names_fold(lists.drop_last()), lists.last())
    }
}

/// The owners that merging lists with owners `lists[0]`, `lists[1]`, ... in turn
/// gives: an item keeps the owners it had where its name first appeared.
pub open spec fn owners_fold(lists: Seq<Map<Seq<char>, (u128, u128)>>) -> Map<Seq<char>, (u128, u128)>
    decreases lists.len(),
{
    if lists.len() <= 1 {
        lists[0]
    } else {
        lists.last().union_prefer_right(owners_fold(lists.drop_last()))
    }
}

proof fn lemma_owners_index(s: Seq<(String, Item)>, i: int)
    requires
        distinct_names(s),
        0 <= i < s.len(),
    ensures
        entries_owners(s).dom().contains(s[i].0@),
        entries_owners(s)[s[i].0@] == item_owners(s[i].1),
{
    let k = s[i].0@;
    assert(has_name(s, k));
    let j = choose|j: int| 0 <= j < s.len() && (#[trigger] s[j]).0@ == k;
    if j != i {
        if j < i {
            assert(s[j].0@ != s[i].0@);
        } else {
            assert(s[i].0@ != s[j].0@);
        }
    }
}

/// Replacing the item of entry `j` by one with the same name and owners keeps the owners.
proof fn lemma_owners_update(s: Seq<(String, Item)>, j: int, e: (String, Item))
    requires
        distinct_names(s),
        0 <= j < s.len(),
        e.0@ == s[j].0@,
        item_owners(e.1) == item_owners(s[j].1),
    ensures
        entries_owners(s.update(j, e)) == entries_owners(s),
{
    let t = s.update(j, e);
    assert forall|a: int, b: int| 0 <= a < b < t.len() implies (#[trigger] t[a]).0@ != (
    #[trigger] t[b]).0@ by {
        assert(s[a].0@ != s[b].0@);
    }
    assert forall|k: Seq<char>| #[trigger] entries_owners(t).dom().contains(k) <==> entries_owners(
        s,
    ).dom().contains(k) by {
        if has_name(t, k) {
            let i = choose|i: int| 0 <= i < t.len() && (#[trigger] t[i]).0@ == k;
            assert(s[i].0@ == t[i].0@);
        }
        if has_name(s, k) {
            let i = choose|i: int| 0 <= i < s.len() && (#[trigger] s[i]).0@ == k;
            assert(s[i].0@ == t[i].0@);
        }
    }
    assert forall|k: Seq<char>| #[trigger] entries_owners(t).dom().contains(k) implies entries_owners(
        t,
    )[k] == entries_owners(s)[k] by {
        let i = choose|i: int| 0 <= i < t.len() && (#[trigger] t[i]).0@ == k;
        lemma_owners_index(t, i);
        assert(s[i].0@ == k);
        lemma_owners_index(s, i);
    }
    assert(entries_owners(t) =~= entries_owners(s));
}

/// Appending an entry under a new name adds that name with its item's owners.
proof fn lemma_owners_push(s: Seq<(String, Item)>, e: (String, Item))
    requires
        distinct_names(s),
        !has_name(s, e.0@),
    ensures
        entries_owners(s.push(e)) == entries_owners(s).insert(e.0@, item_owners(e.1)),
{
    let t = s.push(e);
    assert forall|a: int, b: int| 0 <= a < b < t.len() implies (#[trigger] t[a]).0@ != (
    #[trigger] t[b]).0@ by {
        assert(t[a] == s[a]);
        if b < s.len() {
            assert(t[b] == s[b]);
        } else {
            assert(t[b] == e);
            if s[a].0@ == e.0@ {
                assert(has_name(s, e.0@));
            }
        }
    }
    assert forall|k: Seq<char>| #[trigger] entries_owners(t).dom().contains(k) <==> entries_owners(
        s,
    ).insert(e.0@, item_owners(e.1)).dom().contains(k) by {
        if has_name(t, k) && k != e.0@ {
            let i = choose|i: int| 0 <= i < t.len() && (#[trigger] t[i]).0@ == k;
            assert(t[i] == s[i]);
        }
        if has_name(s, k) {
            let i = choose|i: int| 0 <= i < s.len() && (#[trigger] s[i]).0@ == k;
            assert(t[i] == s[i]);
        }
        assert(t[s.len() as int] == e);
    }
    assert forall|k: Seq<char>| #[trigger] entries_owners(t).dom().contains(k) implies entries_owners(
        t,
    )[k] == entries_owners(s).insert(e.0@, item_owners(e.1))[k] by {
        let i = choose|i: int| 0 <= i < t.len() && (#[trigger] t[i]).0@ == k;
        lemma_owners_index(t, i);
        if i < s.len() {
            assert(t[i] == s[i]);
            lemma_owners_index(s, i);
        }
    }
    assert(entries_owners(t) =~= entries_owners(s).insert(e.0@, item_owners(e.1)));
}

/// The contents that adding the entries one by one to an empty list gives.
pub open spec fn items_join(s: Seq<(String, Item)>) -> Map<Seq<char>, ItemView>
    decreases s.len(),
{
    if s.len() == 0 {
        Map::empty()
    } else {
        awor_join(items_join(s.drop_last()), map![s.last().0@ => s.last().1@])
    }
}

/// Adding entries with distinct names one by one gives exactly the entries.
pub proof fn lemma_items_join_distinct(s: Seq<(String, Item)>)
    requires
        distinct_names(s),
    ensures
        items_join(s) == entries_map(s),
    decreases s.len(),
{
    if s.len() == 0 {
        assert(entries_map(s) =~= Map::<Seq<char>, ItemView>::empty());
    } else {
        let t = s.drop_last();
        let e = s.last();
        assert forall|a: int, b: int| 0 <= a < b < t.len() implies (#[trigger] t[a]).0@ != (
        #[trigger] t[b]).0@ by {
            assert(s[a].0@ != s[b].0@);
        }
        lemma_items_join_distinct(t);
        if has_name(t, e.0@) {
            let x = choose|x: int| 0 <= x < t.len() && (#[trigger] t[x]).0@ == e.0@;
            assert(s[x].0@ != s[s.len() - 1].0@);
        }
        lemma_entries_push(t, e);
        assert(s =~= t.push(e));
        assert(awor_join(entries_map(t), map![e.0@ => e.1@]) =~= entries_map(t).insert(e.0@, e.1@));
    }
}

/// The shopping list's contents: items keyed by name. Adding a name that is
/// already present merges the two items.
pub struct AWORMap {
    items: Vec<(String, Item)>,
}

impl View for AWORMap {
    type V = Map<Seq<char>, ItemView>;

    closed spec fn view(&self) -> Map<Seq<char>, ItemView> {
        entries_map(self.items@)
    }
}

impl AWORMap {
    pub closed spec fn wf(&self) -> bool {
        &&& distinct_names(self.items@)
        &&& forall|i: int| 0 <= i < self.items@.len() ==> (#[trigger] self.items@[i]).1.wf()
    }

    /// Number of names, in the order in which they first arrived.
    pub closed spec fn name_count(&self) -> nat {
        self.items@.len()
    }

    /// The `i`-th name, in the order in which names first arrived.
    pub closed spec fn name_at(&self, i: int) -> Seq<char> {
        self.items@[i].0@
    }

    /// The names, in the order in which they first arrived.
    pub closed spec fn names(&self) -> Seq<Seq<char>> {
        self.items@.map_values(|e: (String, Item)| e.0@)
    }

    /// For each name, the owners of its item.
    pub closed spec fn owners(&self) -> Map<Seq<char>, (u128, u128)> {
        entries_owners(self.items@)
    }

    /// The list of names describes the names: in order, and as `name_at` gives them.
    pub proof fn lemma_names_seq(&self)
        ensures
            self.names().len() == self.name_count(),
            forall|i: int| 0 <= i < self.name_count() ==> #[trigger] self.names()[i] == self.name_at(i),
            self.owners().dom() == self@.dom(),
    {
        assert(self.owners().dom() =~= self@.dom());
    }

    /// The names are listed without repetition, and they are exactly the names in the map.
    pub proof fn lemma_names(&self)
        requires
            self.wf(),
        ensures
            forall|i: int, j: int|
                0 <= i < j < self.name_count() ==> self.name_at(i) != self.name_at(j),
            forall|i: int|
                0 <= i < self.name_count() ==> self@.dom().contains(#[trigger] self.name_at(i)),
            forall|k: Seq<char>|
                #[trigger] self@.dom().contains(k) ==> exists|i: int|
                    0 <= i < self.name_count() && self.name_at(i) == k,
    {
        lemma_entries_all(self.items@);
        assert forall|i: int, j: int| 0 <= i < j < self.name_count() implies self.name_at(i)
            != self.name_at(j) by {
            assert(self.items@[i].0@ != self.items@[j].0@);
        }
        assert forall|k: Seq<char>| #[trigger] self@.dom().contains(k) implies exists|i: int|
            0 <= i < self.name_count() && self.name_at(i) == k by {
            let i = choose|i: int| 0 <= i < self.items@.len() && (#[trigger] self.items@[i]).0@ == k;
            assert(self.name_at(i) == k);
        }
    }

    pub fn new() -> (r: Self)
        ensures
            r.wf(),
            r@ == Map::<Seq<char>, ItemView>::empty(),
            r.name_count() == 0,
    {
        let r = AWORMap { items: Vec::new() };
        assert(r@ =~= Map::<Seq<char>, ItemView>::empty());
        r
    }

    pub fn is_empty(&self) -> (r: bool)
        requires
            self.wf(),
        ensures
            r == (self@ == Map::<Seq<char>, ItemView>::empty()),
    {
        proof {
            lemma_entries_all(self.items@);
            if self.items@.len() > 0 {
                assert(self@.dom().contains(self.items@[0].0@));
            } else {
                assert(self@ =~= Map::<Seq<char>, ItemView>::empty());
            }
        }
        self.items.len() == 0
    }

    /// Number of names in the map.
    pub fn len(&self) -> (r: usize)
        ensures
            r == self.name_count(),
    {
        self.items.len()
    }

    /// Position of the entry named `name`, if any.
    fn position(&self, name: &String) -> (r: Option<usize>)
        requires
            self.wf(),
        ensures
            match r {
                Some(j) => j < self.items@.len() && self.items@[j as int].0@ == name@,
                None => !self@.dom().contains(name@),
            },
    {
        let mut j: usize = 0;
        while j < self.items.len()
            invariant
                j <= self.items@.len(),
                forall|x: int| 0 <= x < j ==> (#[trigger] self.items@[x]).0@ != name@,
            decreases self.items@.len() - j,
        {
            if self.items[j].0 == *name {
                return Some(j);
            }
            j = j + 1;
        }
        None
    }

    /// The names, in the order in which they first arrived.
    pub fn keys(&self) -> (r: Vec<String>)
        ensures
            r.len() == self.name_count(),
            forall|i: int| 0 <= i < r.len() ==> (#[trigger] r@[i])@ == self.name_at(i),
    {
        let mut r: Vec<String> = Vec::new();
        let mut i: usize = 0;
        while i < self.items.len()
            invariant
                i <= self.items@.len(),
                r.len() == i,
                forall|x: int| 0 <= x < i ==> (#[trigger] r@[x])@ == self.name_at(x),
            decreases self.items@.len() - i,
        {
            r.push(self.items[i].0.clone());
            i = i + 1;
        }
        r
    }

    /// Copies of the items, in the order of `keys`, with their owners.
    pub fn values(&self) -> (r: Vec<Item>)
        requires
            self.wf(),
        ensures
            r.len() == self.name_count(),
            forall|i: int|
                0 <= i < r.len() ==> (#[trigger] r@[i])@ == self@[self.name_at(i)] && r@[i].wf()
                    && item_owners(r@[i]) == self.owners()[self.name_at(i)],
    {
        proof {
            lemma_entries_all(self.items@);
            assert forall|x: int| 0 <= x < self.items@.len() implies self.owners()[(
            #[trigger] self.items@[x]).0@] == item_owners(self.items@[x].1) by {
                lemma_owners_index(self.items@, x);
            }
        }
        let mut r: Vec<Item> = Vec::new();
        let mut i: usize = 0;
        while i < self.items.len()
            invariant
                self.wf(),
                i <= self.items@.len(),
                r.len() == i,
                forall|x: int|
                    0 <= x < self.items@.len() ==> self@[(#[trigger] self.items@[x]).0@]
                        == self.items@[x].1@ && self.owners()[self.items@[x].0@] == item_owners(
                        self.items@[x].1,
                    ),
                forall|x: int|
                    0 <= x < i ==> (#[trigger] r@[x])@ == self@[self.name_at(x)] && r@[x].wf()
                        && item_owners(r@[x]) == self.owners()[self.name_at(x)],
            decreases self.items@.len() - i,
        {
            let it = self.items[i].1.clone();
            proof {
                assert(self.items@[i as int].1.wf());
            }
            r.push(it);
            i = i + 1;
        }
        r
    }

    /// The item named `name`, if any.
    pub fn get(&self, name: &str) -> (r: Option<&Item>)
        requires
            self.wf(),
        ensures
            r is None <==> !self@.dom().contains(name@),
            r matches Some(it) ==> it@ == self@[name@] && it.wf() && item_owners(*it)
                == self.owners()[name@],
    {
        let key: String = name.to_owned();
        match self.position(&key) {
            Some(j) => {
                proof {
                    lemma_entries_index(self.items@, j as int);
                    lemma_owners_index(self.items@, j as int);
                }
                Some(&self.items[j].1)
            },
            None => None,
        }
    }

    /// Whether an item is named `name`.
    pub fn contains_key(&self, name: &str) -> (r: bool)
        requires
            self.wf(),
        ensures
            r == self@.dom().contains(name@),
    {
        let key: String = name.to_owned();
        match self.position(&key) {
            Some(j) => {
                proof {
                    lemma_entries_index(self.items@, j as int);
                }
                true
            },
            None => false,
        }
    }

    /// Whether every item's increments and decrements each total at most `i64::MAX`.
    pub fn all_totals_fit(&self) -> (r: bool)
        requires
            self.wf(),
        ensures
            r == forall|k: Seq<char>|
                #[trigger] self@.dom().contains(k) ==> map_total(self@[k].increments) <= i64::MAX
                    && map_total(self@[k].decrements) <= i64::MAX,
    {
        proof {
            lemma_entries_all(self.items@);
        }
        let mut i: usize = 0;
        while i < self.items.len()
            invariant
                self.wf(),
                i <= self.items@.len(),
                forall|x: int|
                    0 <= x < self.items@.len() ==> self@[(#[trigger] self.items@[x]).0@]
                        == self.items@[x].1@,
                forall|x: int|
                    0 <= x < i ==> map_total((#[trigger] self.items@[x]).1@.increments) <= i64::MAX
                        && map_total(self.items@[x].1@.decrements) <= i64::MAX,
            decreases self.items@.len() - i,
        {
            proof {
                assert(self.items@[i as int].1.wf());
            }
            if !self.items[i].1.amount.totals_fit() {
                proof {
                    lemma_entries_index(self.items@, i as int);
                }
                return false;
            }
            i = i + 1;
        }
        proof {
            assert forall|k: Seq<char>| #[trigger] self@.dom().contains(k) implies map_total(
                self@[k].increments,
            ) <= i64::MAX && map_total(self@[k].decrements) <= i64::MAX by {
                let x = choose|x: int| 0 <= x < self.items@.len() && (#[trigger] self.items@[x]).0@ == k;
                lemma_entries_index(self.items@, x);
            }
        }
        true
    }

    /// Adds `item` under `name`, merging it into the item already there. A name
    /// already present keeps its place and its item's owners; a new one goes last,
    /// with `item`'s owners.
    pub fn insert(&mut self, name: String, item: Item)
        requires
            old(self).wf(),
            item.wf(),
        ensures
            final(self).wf(),
            final(self)@ == awor_join(old(self)@, map![name@ => item@]),
            final(self).names() == if old(self).names().contains(name@) {
                old(self).names()
            } else {
                old(self).names().push(name@)
            },
            final(self).owners() == map![name@ => item_owners(item)].union_prefer_right(
                old(self).owners(),
            ),
    {
        let ghost before = self@;
        let ghost before_items = self.items@;
        match self.position(&name) {
            Some(j) => {
                proof {
                    lemma_entries_index(self.items@, j as int);
                    lemma_owners_index(self.items@, j as int);
                }
                let ghost s = self.items@;
                self.items[j].1.merge(&item);
                proof {
                    assert(self.items@ == s.update(j as int, self.items@[j as int]));
                    lemma_entries_update(s, j as int, self.items@[j as int]);
                    lemma_owners_update(s, j as int, self.items@[j as int]);
                    assert forall|x: int| 0 <= x < self.items@.len() implies (
                    #[trigger] self.items@[x]).1.wf() by {
                        if x != j {
                            assert(self.items@[x] == s[x]);
                        }
                    }
                    assert(self.names() =~= s.map_values(|e: (String, Item)| e.0@));
                    assert(s.map_values(|e: (String, Item)| e.0@)[j as int] == name@);
                    assert(map![name@ => item_owners(item)].union_prefer_right(entries_owners(s))
                        =~= entries_owners(s));
                }
            },
            None => {
                let ghost s = self.items@;
                let ghost e = (name, item);
                proof {
                    if has_name(s, name@) {
                        let x = choose|x: int| 0 <= x < s.len() && (#[trigger] s[x]).0@ == name@;
                        lemma_entries_index(s, x);
                    }
                }
                self.items.push((name, item));
                proof {
                    lemma_entries_push(s, e);
                    lemma_owners_push(s, e);
                    let ns = s.map_values(|e: (String, Item)| e.0@);
                    assert(self.names() =~= ns.push(name@));
                    if ns.contains(name@) {
                        let x = choose|x: int| 0 <= x < ns.len() && ns[x] == name@;
                        assert(s[x].0@ == name@);
                    }
                    assert(map![name@ => item_owners(item)].union_prefer_right(entries_owners(s))
                        =~= entries_owners(s).insert(name@, item_owners(item)));
                }
            },
        }
        proof {
            assert(self@ =~= awor_join(before, map![name@ => item@]));
        }
    }
}

impl Clone for AWORMap {
    fn clone(&self) -> (r: Self)
        ensures
            self.wf() ==> r.wf() && r@ == self@ && r.owners() == self.owners(),
            r.name_count() == self.name_count(),
            forall|i: int| 0 <= i < self.name_count() ==> r.name_at(i) == self.name_at(i),
            r.names() == self.names(),
    {
        let mut items: Vec<(String, Item)> = Vec::new();
        let mut i: usize = 0;
        while i < self.items.len()
            invariant
                i <= self.items@.len(),
                items.len() == i,
                forall|x: int|
                    0 <= x < i ==> (#[trigger] items@[x]).0@ == self.items@[x].0@ && items@[x].1@
                        == self.items@[x].1@ && (self.items@[x].1.wf() ==> items@[x].1.wf())
                        && item_owners(items@[x].1) == item_owners(self.items@[x].1),
            decreases self.items@.len() - i,
        {
            let name = self.items[i].0.clone();
            let it = self.items[i].1.clone();
            items.push((name, it));
            i = i + 1;
        }
        let r = AWORMap { items };
        proof {
            let s = self.items@;
            let t = r.items@;
            if self.wf() {
                assert forall|a: int, b: int| 0 <= a < b < t.len() implies (#[trigger] t[a]).0@ != (
                #[trigger] t[b]).0@ by {
                    assert(s[a].0@ != s[b].0@);
                }
                assert forall|x: int| 0 <= x < t.len() implies (#[trigger] t[x]).1.wf() by {
                    assert(s[x].1.wf());
                }
            }
            if self.wf() {
                lemma_entries_all(s);
                lemma_entries_all(t);
                assert forall|k: Seq<char>| #[trigger] r@.dom().contains(k) <==> self@.dom().contains(
                    k,
                ) by {
                    if r@.dom().contains(k) {
                        let x = choose|x: int| 0 <= x < t.len() && (#[trigger] t[x]).0@ == k;
                        assert(s[x].0@ == k);
                    }
                    if self@.dom().contains(k) {
                        let x = choose|x: int| 0 <= x < s.len() && (#[trigger] s[x]).0@ == k;
                        assert(t[x].0@ == k);
                    }
                }
                assert forall|k: Seq<char>| #[trigger] r@.dom().contains(k) implies r@[k] == self@[k] by {
                    let x = choose|x: int| 0 <= x < t.len() && (#[trigger] t[x]).0@ == k;
                    assert(s[x].0@ == k);
                }
                assert(r@ =~= self@);
                assert forall|k: Seq<char>| #[trigger] r.owners().dom().contains(k) implies r.owners()[k]
                    == self.owners()[k] by {
                    let x = choose|x: int| 0 <= x < t.len() && (#[trigger] t[x]).0@ == k;
                    lemma_owners_index(t, x);
                    assert(s[x].0@ == k);
                    lemma_owners_index(s, x);
                }
                assert(r.owners() =~= self.owners());
            }
            assert(r.names() =~= self.names());
        }
        r
    }
}

impl Mergeable<AWORMap> for AWORMap {
    open spec fn can_merge(&self, other: &AWORMap) -> bool {
        self.wf() && other.wf()
    }

    /// The states are joined; names already present keep their places and their
    /// items' owners, and the other list's new names follow in its order, with the
    /// owners they have there.
    open spec fn merged_from(&self, before: &Self, other: &AWORMap) -> bool {
        &&& self.wf()
        &&& self@ == awor_join(before@, other@)
        &&& self.names() == names_after(before.names(), other.names())
        &&& self.owners() == other.owners().union_prefer_right(before.owners())
    }

    fn merge(&mut self, other: &AWORMap) {
        let ghost before = self@;
        let ghost before_names = self.names();
        let ghost before_owners = self.owners();
        let ghost o = other.items@;
        let ghost onames = other.names();
        proof {
            self.lemma_names_seq();
            assert(entries_map(o.take(0)) =~= Map::<Seq<char>, ItemView>::empty());
            assert(awor_join(before, entries_map(o.take(0))) =~= before);
            assert(onames.take(0) =~= Seq::<Seq<char>>::empty());
            assert(entries_owners(o.take(0)) =~= Map::<Seq<char>, (u128, u128)>::empty());
            assert(entries_owners(o.take(0)).union_prefer_right(before_owners) =~= before_owners);
        }
        let mut i: usize = 0;
        while i < other.items.len()
            invariant
                o == other.items@,
                onames == o.map_values(|e: (String, Item)| e.0@),
                other.wf(),
                i <= o.len(),
                self.wf(),
                self@ == awor_join(before, entries_map(o.take(i as int))),
                before_owners.dom() == before.dom(),
                self.names() == names_after(before_names, onames.take(i as int)),
                self.owners() == entries_owners(o.take(i as int)).union_prefer_right(before_owners),
            decreases o.len() - i,
        {
            proof {
                lemma_entries_take_next(o, i as int);
                assert(o[i as int].1.wf());
                assert(o.take(i + 1) =~= o.take(i as int).push(o[i as int]));
                assert forall|x: int, y: int| 0 <= x < y < o.take(i as int).len() implies (
                #[trigger] o.take(i as int)[x]).0@ != (#[trigger] o.take(i as int)[y]).0@ by {
                    assert(o[x].0@ != o[y].0@);
                }
                if has_name(o.take(i as int), o[i as int].0@) {
                    let x = choose|x: int| 0 <= x < i && (#[trigger] o.take(i as int)[x]).0@ == o[i as int].0@;
                    assert(o[x].0@ != o[i as int].0@);
                }
                lemma_owners_push(o.take(i as int), o[i as int]);
                assert(onames.take(i + 1).drop_last() =~= onames.take(i as int));
                assert(onames.take(i + 1).last() == o[i as int].0@);
            }
            let ghost prev = entries_map(o.take(i as int));
            let ghost prev_owners = entries_owners(o.take(i as int));
            let ghost mid_names = self.names();
            let name = &other.items[i].0;
            let other_item = &other.items[i].1;
            let ghost own = item_owners(*other_item);
            match self.position(name) {
                Some(j) => {
                    proof {
                        lemma_entries_index(self.items@, j as int);
                        assert(self.items@[j as int].1.wf());
                    }
                    let ghost s = self.items@;
                    self.items[j].1.merge(other_item);
                    proof {
                        assert(self.items@ == s.update(j as int, self.items@[j as int]));
                        lemma_entries_update(s, j as int, self.items@[j as int]);
                        lemma_owners_update(s, j as int, self.items@[j as int]);
                        assert forall|x: int| 0 <= x < self.items@.len() implies (
                        #[trigger] self.items@[x]).1.wf() by {
                            if x != j {
                                assert(self.items@[x] == s[x]);
                            }
                        }
                        assert(self.names() =~= mid_names);
                        assert(mid_names[j as int] == name@);
                        assert(mid_names.contains(name@));
                        assert(before.dom().contains(name@));
                        assert(prev_owners.insert(name@, own).union_prefer_right(before_owners)
                            =~= prev_owners.union_prefer_right(before_owners));
                    }
                },
                None => {
                    let ghost s = self.items@;
                    let e = (name.clone(), other_item.clone());
                    proof {
                        if has_name(s, name@) {
                            let x = choose|x: int| 0 <= x < s.len() && (#[trigger] s[x]).0@ == name@;
                            lemma_entries_index(s, x);
                        }
                        if mid_names.contains(name@) {
                            let x = choose|x: int| 0 <= x < mid_names.len() && mid_names[x] == name@;
                            assert(s[x].0@ == name@);
                        }
                    }
                    self.items.push(e);
                    proof {
                        lemma_entries_push(s, e);
                        lemma_owners_push(s, e);
                        assert forall|x: int| 0 <= x < self.items@.len() implies (
                        #[trigger] self.items@[x]).1.wf() by {
                            if x < s.len() {
                                assert(self.items@[x] == s[x]);
                            }
                        }
                        assert(self.names() =~= mid_names.push(name@));
                        assert(!before.dom().contains(name@));
                        assert(entries_owners(s).insert(name@, own) =~= prev_owners.insert(
                            name@,
                            own,
                        ).union_prefer_right(before_owners));
                    }
                },
            }
            proof {
                assert(self@ =~= awor_join(before, prev.insert(o[i as int].0@, o[i as int].1@)));
            }
            i = i + 1;
        }
        proof {
            assert(o.take(o.len() as int) =~= o);
            assert(onames.take(o.len() as int) =~= onames);
        }
    }
}


/// Two lists whose common items carry compatible acquired flags.
pub open spec fn awor_compatible(a: Map<Seq<char>, ItemView>, b: Map<Seq<char>, ItemView>) -> bool {
    forall|k: Seq<char>|
        a.dom().contains(k) && b.dom().contains(k) ==> lww_compatible(
            (#[trigger] a[k]).acquired,
            (#[trigger] b[k]).acquired,
        )
}

/// Merging a list with itself leaves it as it was.
pub proof fn lemma_awor_join_idempotent(a: Map<Seq<char>, ItemView>)
    ensures
        awor_join(a, a) == a,
{
    assert forall|k: Seq<char>| #[trigger] a.dom().contains(k) implies awor_join(a, a)[k] == a[k] by {
        lemma_item_join_idempotent(a[k]);
    }
    assert(awor_join(a, a) =~= a);
}

/// Merging lists is commutative when their common items are compatible; so two
/// replicas that exchange and merge their states end up equal.
pub proof fn lemma_awor_join_commutative(a: Map<Seq<char>, ItemView>, b: Map<Seq<char>, ItemView>)
    requires
        awor_compatible(a, b),
    ensures
        awor_join(a, b) == awor_join(b, a),
{
    assert forall|k: Seq<char>| #[trigger] awor_join(a, b).dom().contains(k) implies awor_join(a, b)[k]
        == awor_join(b, a)[k] by {
        if a.dom().contains(k) && b.dom().contains(k) {
            lemma_item_join_commutative(a[k], b[k]);
        }
    }
    assert(awor_join(a, b) =~= awor_join(b, a));
}

/// Merging lists is associative.
pub proof fn lemma_awor_join_associative(
    a: Map<Seq<char>, ItemView>,
    b: Map<Seq<char>, ItemView>,
    c: Map<Seq<char>, ItemView>,
)
    ensures
        awor_join(awor_join(a, b), c) == awor_join(a, awor_join(b, c)),
{
    assert forall|k: Seq<char>| #[trigger] awor_join(awor_join(a, b), c).dom().contains(k) implies awor_join(
        awor_join(a, b),
        c,
    )[k] == awor_join(a, awor_join(b, c))[k] by {
        if a.dom().contains(k) && b.dom().contains(k) && c.dom().contains(k) {
            lemma_item_join_associative(a[k], b[k], c[k]);
        }
    }
    assert(awor_join(awor_join(a, b), c) =~= awor_join(a, awor_join(b, c)));
}

/// After a merge, every name of either list is present.
pub proof fn lemma_awor_join_keeps_names(a: Map<Seq<char>, ItemView>, b: Map<Seq<char>, ItemView>)
    ensures
        awor_join(a, b).dom() == a.dom().union(b.dom()),
{
    assert(awor_join(a, b).dom() =~= a.dom().union(b.dom()));
}

} // verus!
