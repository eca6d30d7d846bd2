//! The set of items that are resident in a cache.
//!
//! An [`ItemSet`] holds each id at most once and keeps its items in the order
//! in which they were admitted. Its mathematical model is the sequence of its
//! items; the functions at the top of this module say what such a sequence
//! contains and how much room it takes.

use crate::item::Item;
use vstd::prelude::*;

verus! {

/// Whether some item of `s` has the id `id`.
pub open spec fn has_id<I: Item>(s: Seq<I>, id: u64) -> bool {
    exists|i: int| 0 <= i < s.len() && (#[trigger] s[i]).spec_id() == id
}

/// Whether no two items of `s` share an id.
pub open spec fn distinct_ids<I: Item>(s: Seq<I>) -> bool {
    forall|i: int, j: int|
        0 <= i < j < s.len() ==> (#[trigger] s[i]).spec_id() != (#[trigger] s[j]).spec_id()
}

/// The ids of the items of `s`.
pub open spec fn ids_of<I: Item>(s: Seq<I>) -> Set<u64> {
    Set::new(|id: u64| has_id(s, id))
}

/// The ids of the items of `s`, in their order.
pub open spec fn ids_in_order<I: Item>(s: Seq<I>) -> Seq<u64> {
    Seq::new(s.len(), |i: int| s[i].spec_id())
}

/// The sum of the sizes of the items of `s`.
pub open spec fn total_size<I: Item>(s: Seq<I>) -> nat
    decreases s.len(),
{
    if s.len() == 0 {
        0
    } else {
        total_size(s.drop_last()) + s.last().spec_size() as nat
    }
}

/// A position of `s` that holds the id `id`, if there is one.
pub open spec fn position_of<I: Item>(s: Seq<I>, id: u64) -> int {
    choose|i: int| 0 <= i < s.len() && (#[trigger] s[i]).spec_id() == id
}

/// `s` without the item that has the id `id`.
pub open spec fn without_id<I: Item>(s: Seq<I>, id: u64) -> Seq<I> {
    if has_id(s, id) {
        s.remove(position_of(s, id))
    } else {
        s
    }
}

/// `s` without the items whose ids occur in `gone`.
pub open spec fn without_all<I: Item>(s: Seq<I>, gone: Seq<I>) -> Seq<I>
    decreases gone.len(),
{
    if gone.len() == 0 {
        s
    } else {
        without_id(without_all(s, gone.drop_last()), gone.last().spec_id())
    }
}

/// `s` with `item` admitted: unchanged if its id is resident already, and with
/// `item` at the end if not.
pub open spec fn with_item<I: Item>(s: Seq<I>, item: I) -> Seq<I> {
    if has_id(s, item.spec_id()) {
        s
    } else {
        s.push(item)
    }
}

/// Whether every item of `part` is an item of `whole`.
pub open spec fn items_of<I: Item>(part: Seq<I>, whole: Seq<I>) -> bool {
    forall|i: int| 0 <= i < part.len() ==> whole.contains(#[trigger] part[i])
}

pub proof fn lemma_total_size_push<I: Item>(s: Seq<I>, item: I)
    ensures
        total_size(s.push(item)) == total_size(s) + item.spec_size(),
{
    assert(s.push(item).drop_last() =~= s);
}

pub proof fn lemma_total_size_remove<I: Item>(s: Seq<I>, i: int)
    requires
        0 <= i < s.len(),
    ensures
        total_size(s.remove(i)) + s[i].spec_size() == total_size(s),
    decreases s.len(),
{
    if i == s.len() - 1 {
        assert(s.remove(i) =~= s.drop_last());
    } else {
        lemma_total_size_remove(s.drop_last(), i);
        assert(s.remove(i).drop_last() =~= s.drop_last().remove(i));
        assert(s.remove(i).last() == s.last());
    }
}

/// With distinct ids, an id is held at one position only.
pub proof fn lemma_position_unique<I: Item>(s: Seq<I>, i: int)
    requires
        distinct_ids(s),
        0 <= i < s.len(),
    ensures
        has_id(s, s[i].spec_id()),
        position_of(s, s[i].spec_id()) == i,
{
    let id = s[i].spec_id();
    let p = position_of(s, id);
    assert(0 <= p < s.len() && s[p].spec_id() == id);
    if p < i {
        assert(s[p].spec_id() != s[i].spec_id());
    } else if i < p {
        assert(s[i].spec_id() != s[p].spec_id());
    }
}

/// What `without_id` keeps: the items with another id, with their sizes.
pub proof fn lemma_without_id<I: Item>(s: Seq<I>, id: u64)
    requires
        distinct_ids(s),
    ensures
        distinct_ids(without_id(s, id)),
        !has_id(without_id(s, id), id),
        forall|other: u64|
            #![trigger has_id(without_id(s, id), other)]
            #![trigger has_id(s, other)]
            other != id ==> (has_id(without_id(s, id), other) <==> has_id(s, other)),
        forall|x: I| #[trigger] without_id(s, id).contains(x) ==> s.contains(x),
        forall|x: I| s.contains(x) && x.spec_id() != id ==> #[trigger] without_id(s, id).contains(x),
        has_id(s, id) ==> total_size(without_id(s, id)) + s[position_of(s, id)].spec_size()
            == total_size(s),
        !has_id(s, id) ==> without_id(s, id) == s,
{
    if has_id(s, id) {
        let p = position_of(s, id);
        let r = s.remove(p);
        lemma_total_size_remove(s, p);
        assert forall|i: int, j: int| 0 <= i < j < r.len() implies (#[trigger] r[i]).spec_id() != (
        #[trigger] r[j]).spec_id() by {
            let si = if i < p { i } else { i + 1 };
            let sj = if j < p { j } else { j + 1 };
            assert(r[i] == s[si] && r[j] == s[sj]);
        }
        assert forall|k: int| 0 <= k < r.len() implies (#[trigger] r[k]).spec_id() != id by {
            let sk = if k < p { k } else { k + 1 };
            assert(r[k] == s[sk]);
            if sk < p {
                assert(s[sk].spec_id() != s[p].spec_id());
            } else {
                assert(s[p].spec_id() != s[sk].spec_id());
            }
        }
        assert forall|other: u64| other != id implies (has_id(r, other) <==> has_id(s, other)) by {
            if has_id(r, other) {
                let k = choose|k: int| 0 <= k < r.len() && (#[trigger] r[k]).spec_id() == other;
                let sk = if k < p { k } else { k + 1 };
                assert(s[sk].spec_id() == other);
            }
            if has_id(s, other) {
                let k = choose|k: int| 0 <= k < s.len() && (#[trigger] s[k]).spec_id() == other;
                let rk = if k < p { k } else { k - 1 };
                assert(r[rk].spec_id() == other);
            }
        }
        assert forall|x: I| #[trigger] r.contains(x) implies s.contains(x) by {
            let k = choose|k: int| 0 <= k < r.len() && r[k] == x;
            let sk = if k < p { k } else { k + 1 };
            assert(s[sk] == x);
        }
        assert forall|x: I| s.contains(x) && x.spec_id() != id implies #[trigger] r.contains(x) by {
            let k = choose|k: int| 0 <= k < s.len() && s[k] == x;
            let rk = if k < p { k } else { k - 1 };
            assert(r[rk] == x);
        }
    }
}

/// What `with_item` holds: the old items and the new one.
pub proof fn lemma_with_item<I: Item>(s: Seq<I>, item: I)
    requires
        distinct_ids(s),
    ensures
        distinct_ids(with_item(s, item)),
        has_id(with_item(s, item), item.spec_id()),
        forall|other: u64|
            #![trigger has_id(with_item(s, item), other)]
            #![trigger has_id(s, other)]
            has_id(with_item(s, item), other) <==> (has_id(s, other) || other == item.spec_id()),
        forall|x: I| s.contains(x) ==> #[trigger] with_item(s, item).contains(x),
        has_id(s, item.spec_id()) ==> total_size(with_item(s, item)) == total_size(s),
        !has_id(s, item.spec_id()) ==> total_size(with_item(s, item)) == total_size(s)
            + item.spec_size(),
{
    if !has_id(s, item.spec_id()) {
        let r = s.push(item);
        lemma_total_size_push(s, item);
        assert(r[s.len() as int] == item);
        assert forall|other: u64| has_id(r, other) implies (has_id(s, other) || other
            == item.spec_id()) by {
            let k = choose|k: int| 0 <= k < r.len() && (#[trigger] r[k]).spec_id() == other;
            if k < s.len() {
                assert(s[k].spec_id() == other);
            }
        }
        assert forall|other: u64| has_id(s, other) implies has_id(r, other) by {
            let k = choose|k: int| 0 <= k < s.len() && (#[trigger] s[k]).spec_id() == other;
            assert(r[k].spec_id() == other);
        }
        assert forall|x: I| s.contains(x) implies #[trigger] r.contains(x) by {
            let k = choose|k: int| 0 <= k < s.len() && s[k] == x;
            assert(r[k] == x);
        }
    }
}

/// An item of `with_item` is an old item or the new one.
pub proof fn lemma_contains_with_item<I: Item>(s: Seq<I>, item: I, x: I)
    requires
        with_item(s, item).contains(x),
    ensures
        s.contains(x) || x == item,
{
    let r = with_item(s, item);
    let k = choose|k: int| 0 <= k < r.len() && r[k] == x;
    if !has_id(s, item.spec_id()) && k < s.len() {
        assert(s[k] == x);
    }
}

/// What `without_all` keeps: the items whose id does not occur in `gone`.
pub proof fn lemma_without_all<I: Item>(s: Seq<I>, gone: Seq<I>)
    requires
        distinct_ids(s),
    ensures
        distinct_ids(without_all(s, gone)),
        forall|id: u64|
            #![trigger has_id(without_all(s, gone), id)]
            #![trigger has_id(s, id)]
            has_id(without_all(s, gone), id) <==> (has_id(s, id) && !has_id(gone, id)),
        forall|x: I| #[trigger] without_all(s, gone).contains(x) ==> s.contains(x),
        forall|x: I|
            s.contains(x) && !has_id(gone, x.spec_id()) ==> #[trigger] without_all(
                s,
                gone,
            ).contains(x),
    decreases gone.len(),
{
    if gone.len() > 0 {
        let init = gone.drop_last();
        let last_id = gone.last().spec_id();
        let mid = without_all(s, init);
        lemma_without_all(s, init);
        lemma_without_id(mid, last_id);
        assert forall|id: u64| has_id(gone, id) <==> (has_id(init, id) || id == last_id) by {
            if has_id(gone, id) {
                let k = choose|k: int| 0 <= k < gone.len() && (#[trigger] gone[k]).spec_id() == id;
                if k < init.len() {
                    assert(init[k].spec_id() == id);
                }
            }
            if has_id(init, id) {
                let k = choose|k: int| 0 <= k < init.len() && (#[trigger] init[k]).spec_id() == id;
                assert(gone[k].spec_id() == id);
            }
            if id == last_id {
                assert(gone[gone.len() - 1].spec_id() == id);
            }
        }
    }
}

/// Taking one item away is taking away its id.
pub proof fn lemma_without_single<I: Item>(s: Seq<I>, item: I)
    ensures
        without_all(s, seq![item]) == without_id(s, item.spec_id()),
{
    let gone = seq![item];
    assert(gone.drop_last() =~= Seq::<I>::empty());
    assert(without_all(s, gone.drop_last()) == s);
    assert(gone.last() == item);
}

/// Distinct items of `s` without the last of them are distinct items of `s`,
/// none of which has the id of the last, which is an item of `s` too.
pub proof fn lemma_all_but_last<I: Item>(s: Seq<I>, gone: Seq<I>)
    requires
        distinct_ids(gone),
        items_of(gone, s),
        gone.len() > 0,
    ensures
        distinct_ids(gone.drop_last()),
        items_of(gone.drop_last(), s),
        !has_id(gone.drop_last(), gone.last().spec_id()),
        s.contains(gone.last()),
{
    let init = gone.drop_last();
    let last = gone.last();
    assert forall|i: int| 0 <= i < init.len() implies s.contains(#[trigger] init[i]) by {
        assert(init[i] == gone[i]);
    }
    assert forall|i: int, j: int| 0 <= i < j < init.len() implies (#[trigger] init[i]).spec_id()
        != (#[trigger] init[j]).spec_id() by {
        assert(init[i] == gone[i] && init[j] == gone[j]);
    }
    if has_id(init, last.spec_id()) {
        let k = choose|k: int|
            0 <= k < init.len() && (#[trigger] init[k]).spec_id() == last.spec_id();
        assert(gone[k].spec_id() != gone[gone.len() - 1].spec_id());
    }
    assert(gone[gone.len() - 1] == last);
}

/// Taking distinct items of `s` away takes their sizes away.
pub proof fn lemma_without_all_size<I: Item>(s: Seq<I>, gone: Seq<I>)
    requires
        distinct_ids(s),
        distinct_ids(gone),
        items_of(gone, s),
    ensures
        total_size(without_all(s, gone)) + total_size(gone) == total_size(s),
    decreases gone.len(),
{
    if gone.len() > 0 {
        let init = gone.drop_last();
        let last = gone.last();
        let mid = without_all(s, init);
        lemma_all_but_last(s, gone);
        lemma_without_all_size(s, init);
        lemma_without_all(s, init);
        assert(mid.contains(last));
        let p = choose|k: int| 0 <= k < mid.len() && mid[k] == last;
        lemma_position_unique(mid, p);
        lemma_without_id(mid, last.spec_id());
    }
}

/// Removing an item makes a sequence shorter by one.
pub proof fn lemma_without_id_len<I: Item>(s: Seq<I>, id: u64)
    ensures
        has_id(s, id) ==> without_id(s, id).len() + 1 == s.len(),
        !has_id(s, id) ==> without_id(s, id).len() == s.len(),
{
    if has_id(s, id) {
        let p = position_of(s, id);
        assert(0 <= p < s.len());
    }
}

/// Taking distinct items of `s` away makes it shorter by their number.
pub proof fn lemma_without_all_len<I: Item>(s: Seq<I>, gone: Seq<I>)
    requires
        distinct_ids(s),
        distinct_ids(gone),
        items_of(gone, s),
    ensures
        without_all(s, gone).len() + gone.len() == s.len(),
    decreases gone.len(),
{
    if gone.len() > 0 {
        let init = gone.drop_last();
        let last = gone.last();
        let mid = without_all(s, init);
        lemma_all_but_last(s, gone);
        lemma_without_all_len(s, init);
        lemma_without_all(s, init);
        let p = choose|p: int| 0 <= p < s.len() && s[p] == last;
        assert(has_id(s, s[p].spec_id()));
        assert(has_id(mid, last.spec_id()));
        lemma_without_id_len(mid, last.spec_id());
    }
}

/// A set of cacheable items, at most one for each id, in the order of admission.
pub struct ItemSet<I: Item> {
    items: Vec<I>,
}

impl<I: Item> View for ItemSet<I> {
    type V = Seq<I>;

    closed spec fn view(&self) -> Seq<I> {
        self.items@
    }
}

impl<I: Item> Clone for ItemSet<I> {
    fn clone(&self) -> (copy: Self)
        ensures
            copy@ == self@,
    {
        let mut items: Vec<I> = Vec::new();
        let mut i: usize = 0;
        while i < self.items.len()
            invariant
                i <= self.items@.len(),
                items@ == self.items@.take(i as int),
            decreases self.items@.len() - i,
        {
            items.push(self.items[i]);
            proof {
                assert(items@ =~= self.items@.take(i + 1));
            }
            i += 1;
        }
        proof {
            assert(self.items@.take(self.items@.len() as int) =~= self.items@);
        }
        Self { items }
    }
}

impl<I: Item> ItemSet<I> {
    /// The invariant of the type: no id occurs twice.
    pub open spec fn wf(&self) -> bool {
        distinct_ids(self@)
    }

    /// Create an empty set.
    #[must_use]
    pub fn new() -> (set: Self)
        ensures
            set@ == Seq::<I>::empty(),
            set.wf(),
    {
        Self { items: Vec::new() }
    }

    /// The number of items in the set.
    pub fn len(&self) -> (len: usize)
        ensures
            len == self@.len(),
    {
        self.items.len()
    }

    /// Whether the set holds no item.
    pub fn is_empty(&self) -> (empty: bool)
        ensures
            empty == (self@.len() == 0),
    {
        self.items.len() == 0
    }

    /// The item at position `index` in the order of admission.
    pub fn get(&self, index: usize) -> (item: I)
        requires
            index < self@.len(),
        ensures
            item == self@[index as int],
    {
        self.items[index]
    }

    /// The position of the item with the id `id`, if the set holds one.
    pub fn position(&self, id: u64) -> (position: Option<usize>)
        ensures
            match position {
                Some(p) => p < self@.len() && self@[p as int].spec_id() == id,
                None => !has_id(self@, id),
            },
            self.wf() && has_id(self@, id) ==> position == Some(position_of(self@, id) as usize),
    {
        let mut i: usize = 0;
        while i < self.items.len()
            invariant
                i <= self.items@.len(),
                forall|k: int| 0 <= k < i ==> (#[trigger] self.items@[k]).spec_id() != id,
            decreases self.items@.len() - i,
        {
            if self.items[i].id() == id {
                proof {
                    if self.wf() {
                        lemma_position_unique(self@, i as int);
                    }
                }
                return Some(i);
            }
            i += 1;
        }
        None
    }

    /// Whether the set holds an item with the id of `item`.
    pub fn contains(&self, item: &I) -> (found: bool)
        ensures
            found == has_id(self@, item.spec_id()),
    {
        self.position(item.id()).is_some()
    }

    /// Whether the set holds an item with the id `id`.
    pub fn contains_id(&self, id: u64) -> (found: bool)
        ensures
            found == has_id(self@, id),
    {
        self.position(id).is_some()
    }

    /// Admit `item`. An item whose id is in the set already changes nothing.
    /// Returns whether the item was added.
    pub fn insert(&mut self, item: I) -> (added: bool)
        requires
            old(self).wf(),
        ensures
            final(self).wf(),
            final(self)@ == with_item(old(self)@, item),
            added == !has_id(old(self)@, item.spec_id()),
    {
        proof {
            lemma_with_item(self@, item);
        }
        if self.position(item.id()).is_some() {
            false
        } else {
            self.items.push(item);
            true
        }
    }

    /// Take the item with the id of `item` out of the set, if there is one.
    /// Returns whether an item was taken out.
    pub fn remove(&mut self, item: &I) -> (removed: bool)
        requires
            old(self).wf(),
        ensures
            final(self).wf(),
            final(self)@ == without_id(old(self)@, item.spec_id()),
            removed == has_id(old(self)@, item.spec_id()),
    {
        proof {
            lemma_without_id(self@, item.spec_id());
        }
        match self.position(item.id()) {
            Some(p) => {
                self.items.remove(p);
                true
            },
            None => false,
        }
    }

    /// A copy of this set without the items whose ids occur in `gone`.
    pub fn without(&self, gone: &ItemSet<I>) -> (rest: Self)
        requires
            self.wf(),
        ensures
            rest.wf(),
            rest@ == without_all(self@, gone@),
    {
        let mut rest = self.clone();
        let mut k: usize = 0;
        while k < gone.len()
            invariant
                k <= gone@.len(),
                rest.wf(),
                rest@ == without_all(self@, gone@.take(k as int)),
            decreases gone@.len() - k,
        {
            let item = gone.get(k);
            proof {
                assert(gone@.take(k + 1).drop_last() =~= gone@.take(k as int));
                assert(gone@.take(k + 1).last() == item);
            }
            rest.remove(&item);
            k += 1;
        }
        proof {
            assert(gone@.take(gone@.len() as int) =~= gone@);
        }
        rest
    }

    /// The room that the items take together.
    pub fn total_size(&self) -> (total: u128)
        ensures
            total == total_size(self@),
    {
        let mut total: u128 = 0;
        let mut i: usize = 0;
        proof {
            assert(self.items@.take(0) =~= Seq::<I>::empty());
        }
        while i < self.items.len()
            invariant
                i <= self.items@.len(),
                total == total_size(self.items@.take(i as int)),
                total <= i * 0x1_0000_0000,
            decreases self.items@.len() - i,
        {
            proof {
                assert(self.items@.take(i + 1).drop_last() =~= self.items@.take(i as int));
                assert(self.items@.take(i + 1).last() == self.items@[i as int]);
            }
            total = total + self.items[i].size() as u128;
            i += 1;
        }
        proof {
            assert(self.items@.take(self.items@.len() as int) =~= self.items@);
        }
        total
    }

    /// The ids of the items, in the order of admission.
    pub fn ids(&self) -> (ids: Vec<u64>)
        ensures
            ids@ == ids_in_order(self@),
    {
        let mut ids: Vec<u64> = Vec::new();
        let mut i: usize = 0;
        while i < self.items.len()
            invariant
                i <= self.items@.len(),
                ids@.len() == i,
                forall|k: int| 0 <= k < i ==> #[trigger] ids@[k] == self.items@[k].spec_id(),
            decreases self.items@.len() - i,
        {
            ids.push(self.items[i].id());
            i += 1;
        }
        proof {
            assert(ids@ =~= ids_in_order(self@));
        }
        ids
    }
}

} // verus!
