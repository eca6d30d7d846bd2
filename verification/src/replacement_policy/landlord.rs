//! The Landlord replacement algorithm.
//!
//! Landlord gives every resident item a credit, which starts at the item's
//! cost and rises towards it again when the item is hit. To make room it
//! charges each resident rent in proportion to its size, as much as brings the
//! lowest credit to zero, and evicts items that are out of credit, round after
//! round, until the incoming item fits. Where more items are out of credit
//! than have to go, a tiebreaker picks among them.
//!
//! The credits are kept by a [`CreditLedger`]. The policy decides the rest:
//! whether more room is needed and how much, who pays rent, and which of the
//! items that are out of credit leave. What a ledger does is a function of
//! its books, so the items that leave are a function of the policy's model:
//! [`rounds`] says which.

use crate::item::{GeneralModelItem, Item};
use crate::item_set::{
    distinct_ids, has_id, items_of, lemma_with_item, lemma_without_all, lemma_without_all_len,
    lemma_without_all_size, total_size, with_item, without_all, ItemSet,
};
use crate::replacement_policy::{room_needed, Lru, ReplacementPolicy, Tiebreaker};
use std::marker::PhantomData;
use vstd::prelude::*;

verus! {

/// The tenants of a landlord as a mathematical value: the resident items that
/// pay rent, in the order of the cache.
pub type Tenants<I> = Seq<I>;

/// The books of a landlord: the credit of every item.
///
/// What a ledger holds is its `Model`. `model_access` and `model_charge` say
/// how an access and a round of rent change it, and `out_of_credit` says which
/// items have used up their credit.
pub trait CreditLedger<I: Item>: Sized {
    /// The mathematical model of the books.
    type Model;

    /// The model of these books.
    spec fn model(&self) -> Self::Model;

    /// The books after an access to `item`. `resident` says whether the item
    /// was in the cache.
    spec fn model_access(model: Self::Model, item: I, resident: bool) -> Self::Model;

    /// The books after the items of `tenants` have paid a round of rent.
    spec fn model_charge(model: Self::Model, tenants: Tenants<I>) -> Self::Model;

    /// Whether `item` has used up its credit.
    spec fn out_of_credit(model: Self::Model, item: I) -> bool;

    /// A round of rent leaves some tenant out of credit, if the tenants take
    /// any room.
    proof fn lemma_rent_is_paid(model: Self::Model, tenants: Tenants<I>)
        requires
            distinct_ids(tenants),
            total_size(tenants) > 0,
        ensures
            exists|i: int|
                0 <= i < tenants.len() && Self::out_of_credit(
                    Self::model_charge(model, tenants),
                    #[trigger] tenants[i],
                ),
    ;

    /// Record an access to `item`. `resident` says whether the item was in the
    /// cache. The credit of an item that was not starts at its cost; the
    /// credit of one that was rises towards its cost.
    fn access(&mut self, item: I, resident: bool)
        ensures
            final(self).model() == Self::model_access(old(self).model(), item, resident),
    ;

    /// Charge rent to the items of `tenants`: lower the credit of each in
    /// proportion to its size, by as much as brings the lowest credit to zero.
    /// Returns the tenants that are out of credit then, in the order of
    /// `tenants`; there is at least one. The credit of an item that is no
    /// tenant stays as it is.
    fn charge_rent(&mut self, tenants: &ItemSet<I>) -> (reported: ItemSet<I>)
        requires
            tenants.wf(),
            total_size(tenants@) > 0,
        ensures
            final(self).model() == Self::model_charge(old(self).model(), tenants@),
            reported.wf(),
            reported@ == tenants@.filter(|t: I| Self::out_of_credit(final(self).model(), t)),
            reported@.len() > 0,
            forall|item: I|
                !has_id(tenants@, item.spec_id()) ==> (#[trigger] Self::out_of_credit(
                    final(self).model(),
                    item,
                ) <==> Self::out_of_credit(old(self).model(), item)),
    ;
}

/// The items of `tenants` that are out of credit by `books`, in their order.
pub open spec fn reported_by<L: CreditLedger<I>, I: Item>(books: L::Model, tenants: Seq<I>) -> Seq<
    I,
> {
    tenants.filter(|t: I| L::out_of_credit(books, t))
}

/// What a filter keeps of items with distinct ids: items of the sequence with
/// distinct ids, each of which meets the condition, and every item that does.
pub proof fn lemma_filtered<I: Item>(s: Seq<I>, keep: spec_fn(I) -> bool)
    requires
        distinct_ids(s),
    ensures
        distinct_ids(s.filter(keep)),
        items_of(s.filter(keep), s),
        forall|i: int| 0 <= i < s.filter(keep).len() ==> keep(#[trigger] s.filter(keep)[i]),
        forall|i: int|
            0 <= i < s.len() && keep(#[trigger] s[i]) ==> has_id(s.filter(keep), s[i].spec_id()),
        forall|id: u64| has_id(s.filter(keep), id) ==> has_id(s, id),
    decreases s.len(),
{
    reveal(Seq::filter);
    let kept = s.filter(keep);
    if s.len() > 0 {
        let init = s.drop_last();
        let last = s.last();
        let before = init.filter(keep);
        assert(distinct_ids(init)) by {
            assert forall|i: int, j: int| 0 <= i < j < init.len() implies (#[trigger] init[i]).spec_id()
                != (#[trigger] init[j]).spec_id() by {
                assert(init[i] == s[i] && init[j] == s[j]);
            }
        }
        lemma_filtered(init, keep);
        assert forall|id: u64| has_id(before, id) implies has_id(s, id) && id != last.spec_id() by {
            let k = choose|k: int| 0 <= k < init.len() && (#[trigger] init[k]).spec_id() == id;
            assert(s[k].spec_id() == id);
            assert(s[k].spec_id() != s[s.len() - 1].spec_id());
        }
        assert forall|i: int| 0 <= i < kept.len() implies s.contains(#[trigger] kept[i]) && keep(
            kept[i],
        ) by {
            if i < before.len() {
                assert(kept[i] == before[i]);
                assert(init.contains(before[i]));
                let k = choose|k: int| 0 <= k < init.len() && init[k] == before[i];
                assert(s[k] == kept[i]);
            } else {
                assert(s[s.len() - 1] == kept[i]);
            }
        }
        assert forall|i: int, j: int| 0 <= i < j < kept.len() implies (#[trigger] kept[i]).spec_id()
            != (#[trigger] kept[j]).spec_id() by {
            if j < before.len() {
                assert(kept[i] == before[i] && kept[j] == before[j]);
            } else {
                assert(kept[i] == before[i]);
                assert(has_id(before, before[i].spec_id()));
            }
        }
        assert forall|i: int| 0 <= i < s.len() && keep(#[trigger] s[i]) implies has_id(
            kept,
            s[i].spec_id(),
        ) by {
            if i < init.len() {
                assert(init[i] == s[i]);
                let k = choose|k: int|
                    0 <= k < before.len() && (#[trigger] before[k]).spec_id() == s[i].spec_id();
                assert(kept[k] == before[k]);
            } else {
                assert(kept[kept.len() - 1] == s[i]);
            }
        }
        assert forall|id: u64| has_id(kept, id) implies has_id(s, id) by {
            let k = choose|k: int| 0 <= k < kept.len() && (#[trigger] kept[k]).spec_id() == id;
            assert(s.contains(kept[k]));
            let p = choose|p: int| 0 <= p < s.len() && s[p] == kept[k];
            assert(s[p].spec_id() == id);
        }
    }
}

/// The room that is still to be freed for `next` once the items of `evicting`
/// have left `set`; zero where `next` fits.
pub open spec fn room_missing<I: Item>(set: Seq<I>, capacity: u32, next: I, evicting: Seq<I>) -> int {
    let short = total_size(without_all(set, evicting)) + next.spec_size() - capacity;
    if short > 0 {
        short
    } else {
        0
    }
}

/// The sizes of two sequences, one after the other, add up.
pub proof fn lemma_total_size_add<I: Item>(first: Seq<I>, second: Seq<I>)
    ensures
        total_size(first + second) == total_size(first) + total_size(second),
    decreases second.len(),
{
    if second.len() == 0 {
        assert(first + second =~= first);
    } else {
        lemma_total_size_add(first, second.drop_last());
        assert((first + second).drop_last() =~= first + second.drop_last());
        assert((first + second).last() == second.last());
    }
}

/// One round of an eviction. `tenants` are the resident items that are not
/// yet picked for eviction and `reported` are those of them that the ledger
/// reported to be out of credit after it charged them rent. The tiebreaker
/// picks among these the items that leave, which are returned: in its order,
/// the fewest that free the room `missing`, and all of them if they cannot
/// free it.
pub fn evict_out_of_credit<I: Item, T: Tiebreaker<I>>(
    tiebreaker: &mut T,
    tenants: &ItemSet<I>,
    reported: &ItemSet<I>,
    missing: u32,
) -> (chosen: ItemSet<I>)
    requires
        T::tracks(old(tiebreaker).model(), tenants@),
        tenants.wf(),
        reported.wf(),
        reported@.len() > 0,
        items_of(reported@, tenants@),
        missing > 0,
    ensures
        chosen.wf(),
        chosen@.len() > 0,
        items_of(chosen@, reported@),
        items_of(chosen@, tenants@),
        total_size(chosen@) >= missing || forall|id: u64|
            has_id(reported@, id) ==> has_id(chosen@, id),
        total_size(chosen@.drop_last()) < missing,
        final(tiebreaker).model() == old(tiebreaker).model(),
        T::deterministic() ==> chosen@ == T::model_tiebreak(
            old(tiebreaker).model(),
            reported@,
            missing,
        ),
{
    proof {
        assert forall|id: u64| has_id(reported@, id) implies has_id(tenants@, id) by {
            let k = choose|k: int|
                0 <= k < reported@.len() && (#[trigger] reported@[k]).spec_id() == id;
            assert(tenants@.contains(reported@[k]));
            let p = choose|p: int| 0 <= p < tenants@.len() && tenants@[p] == reported@[k];
            assert(tenants@[p].spec_id() == id);
        }
        T::lemma_tracks_part(tiebreaker.model(), tenants@, reported@);
    }
    let chosen = tiebreaker.tiebreak(reported, missing);
    proof {
        assert forall|i: int| 0 <= i < chosen@.len() implies tenants@.contains(
            #[trigger] chosen@[i],
        ) by {
            assert(reported@.contains(chosen@[i]));
            let k = choose|k: int| 0 <= k < reported@.len() && reported@[k] == chosen@[i];
            assert(tenants@.contains(reported@[k]));
        }
    }
    chosen
}

/// The rounds of rent and eviction that make room for `next`, at most
/// `rounds_left` of them: the books after the last round, and the items of
/// `set` that leave. `books` are the books and `evicting` the items picked so
/// far; `seen` is the tiebreaker. In each round the items that are left pay
/// rent, and the tiebreaker picks among those that are out of credit then.
#[verifier::opaque]
pub open spec fn rounds<L: CreditLedger<I>, I: Item, T: Tiebreaker<I>>(
    books: L::Model,
    seen: T::Model,
    set: Seq<I>,
    capacity: u32,
    next: I,
    evicting: Seq<I>,
    rounds_left: nat,
) -> (L::Model, Seq<I>)
    decreases rounds_left,
{
    let missing = room_missing(set, capacity, next, evicting);
    if rounds_left == 0 || missing == 0 {
        (books, evicting)
    } else {
        let tenants = without_all(set, evicting);
        let charged = L::model_charge(books, tenants);
        let chosen = T::model_tiebreak(seen, reported_by::<L, I>(charged, tenants), missing as u32);
        rounds::<L, I, T>(
            charged,
            seen,
            set,
            capacity,
            next,
            evicting + chosen,
            (rounds_left - 1) as nat,
        )
    }
}

/// The report of a ledger: tenants, each of which is out of credit.
pub proof fn lemma_reported_by<L: CreditLedger<I>, I: Item>(books: L::Model, tenants: Seq<I>)
    requires
        distinct_ids(tenants),
    ensures
        reported_by::<L, I>(books, tenants) == tenants.filter(|t: I| L::out_of_credit(books, t)),
        distinct_ids(reported_by::<L, I>(books, tenants)),
        items_of(reported_by::<L, I>(books, tenants), tenants),
        forall|i: int|
            0 <= i < reported_by::<L, I>(books, tenants).len() ==> L::out_of_credit(
                books,
                #[trigger] reported_by::<L, I>(books, tenants)[i],
            ),
{
    lemma_filtered(tenants, |t: I| L::out_of_credit(books, t));
}

/// One round of the rounds: where room is missing and a round is left, the
/// tenants pay rent, the tiebreaker picks among the reported, and the rounds
/// go on from there.
pub proof fn lemma_round<L: CreditLedger<I>, I: Item, T: Tiebreaker<I>>(
    books: L::Model,
    seen: T::Model,
    set: Seq<I>,
    capacity: u32,
    next: I,
    evicting: Seq<I>,
    rounds_left: nat,
)
    requires
        rounds_left > 0,
        room_missing(set, capacity, next, evicting) > 0,
    ensures
        rounds::<L, I, T>(books, seen, set, capacity, next, evicting, rounds_left) == rounds::<
            L,
            I,
            T,
        >(
            L::model_charge(books, without_all(set, evicting)),
            seen,
            set,
            capacity,
            next,
            evicting + T::model_tiebreak(
                seen,
                reported_by::<L, I>(
                    L::model_charge(books, without_all(set, evicting)),
                    without_all(set, evicting),
                ),
                room_missing(set, capacity, next, evicting) as u32,
            ),
            (rounds_left - 1) as nat,
        ),
{
    reveal(rounds);
}

/// Where `next` fits, the rounds are over: the books stay and nothing more
/// is picked.
pub proof fn lemma_rounds_over<L: CreditLedger<I>, I: Item, T: Tiebreaker<I>>(
    books: L::Model,
    seen: T::Model,
    set: Seq<I>,
    capacity: u32,
    next: I,
    evicting: Seq<I>,
    rounds_left: nat,
)
    requires
        room_missing(set, capacity, next, evicting) == 0,
    ensures
        rounds::<L, I, T>(books, seen, set, capacity, next, evicting, rounds_left) == (
            books,
            evicting,
        ),
{
    reveal(rounds);
}

/// Items picked among the tenants join the items picked before: together
/// they are distinct items of the set.
pub proof fn lemma_picked<I: Item>(set: Seq<I>, evicting: Seq<I>, chosen: Seq<I>)
    requires
        distinct_ids(set),
        distinct_ids(evicting),
        items_of(evicting, set),
        distinct_ids(chosen),
        items_of(chosen, without_all(set, evicting)),
    ensures
        distinct_ids(evicting + chosen),
        items_of(evicting + chosen, set),
{
    let tenants = without_all(set, evicting);
    let after = evicting + chosen;
    lemma_without_all(set, evicting);
    assert forall|i: int| 0 <= i < after.len() implies set.contains(#[trigger] after[i]) by {
        if i < evicting.len() {
            assert(after[i] == evicting[i]);
        } else {
            assert(after[i] == chosen[i - evicting.len()]);
            assert(tenants.contains(chosen[i - evicting.len()]));
        }
    }
    assert forall|i: int, j: int| 0 <= i < j < after.len() implies (#[trigger] after[i]).spec_id()
        != (#[trigger] after[j]).spec_id() by {
        if j < evicting.len() {
            assert(after[i] == evicting[i] && after[j] == evicting[j]);
        } else if i < evicting.len() {
            let c = chosen[j - evicting.len()];
            assert(after[j] == c && after[i] == evicting[i]);
            assert(tenants.contains(c));
            let p = choose|p: int| 0 <= p < tenants.len() && tenants[p] == c;
            assert(has_id(tenants, tenants[p].spec_id()));
            assert(has_id(evicting, evicting[i].spec_id()));
        } else {
            assert(after[i] == chosen[i - evicting.len()] && after[j] == chosen[j - evicting.len()]);
        }
    }
}

/// What a round picks, where room is missing: tenants that are out of credit
/// once the rent is paid, at least one. With the items picked before they
/// are distinct items of the set, and fewer tenants are left.
pub proof fn lemma_round_picks<L: CreditLedger<I>, I: Item, T: Tiebreaker<I>>(
    books: L::Model,
    seen: T::Model,
    set: Seq<I>,
    capacity: u32,
    next: I,
    evicting: Seq<I>,
) -> (chosen: Seq<I>)
    requires
        T::deterministic(),
        T::tracks(seen, set),
        distinct_ids(set),
        total_size(set) <= capacity,
        next.spec_size() <= capacity,
        distinct_ids(evicting),
        items_of(evicting, set),
        room_missing(set, capacity, next, evicting) > 0,
    ensures
        chosen == T::model_tiebreak(
            seen,
            reported_by::<L, I>(
                L::model_charge(books, without_all(set, evicting)),
                without_all(set, evicting),
            ),
            room_missing(set, capacity, next, evicting) as u32,
        ),
        chosen.len() > 0,
        distinct_ids(chosen),
        items_of(chosen, without_all(set, evicting)),
        forall|i: int|
            0 <= i < chosen.len() ==> L::out_of_credit(
                L::model_charge(books, without_all(set, evicting)),
                #[trigger] chosen[i],
            ),
        distinct_ids(evicting + chosen),
        items_of(evicting + chosen, set),
        without_all(set, evicting + chosen).len() < without_all(set, evicting).len(),
        total_size(without_all(set, evicting)) > 0,
{
    let missing = room_missing(set, capacity, next, evicting);
    let tenants = without_all(set, evicting);
    lemma_without_all(set, evicting);
    lemma_without_all_size(set, evicting);
    lemma_without_all_len(set, evicting);
    let charged = L::model_charge(books, tenants);
    let report = reported_by::<L, I>(charged, tenants);
    let chosen = T::model_tiebreak(seen, report, missing as u32);
    L::lemma_rent_is_paid(books, tenants);
    lemma_filtered(tenants, |t: I| L::out_of_credit(charged, t));
    let w = choose|i: int| 0 <= i < tenants.len() && L::out_of_credit(charged, #[trigger] tenants[i]);
    assert(has_id(report, tenants[w].spec_id()));
    T::lemma_tracks_part(seen, set, report);
    T::lemma_model_tiebreak(seen, report, missing as u32);
    assert forall|i: int| 0 <= i < chosen.len() implies tenants.contains(#[trigger] chosen[i])
        && L::out_of_credit(charged, chosen[i]) by {
        assert(report.contains(chosen[i]));
        let k = choose|k: int| 0 <= k < report.len() && report[k] == chosen[i];
        assert(tenants.contains(report[k]));
    }
    lemma_picked(set, evicting, chosen);
    lemma_without_all_len(set, evicting + chosen);
    chosen
}

/// What the rounds come to: the items that leave are distinct items of the
/// set, those picked before among them, and `next` fits once they are gone.
/// Where it did not fit before, the rounds pick at least one item more.
pub proof fn lemma_rounds<L: CreditLedger<I>, I: Item, T: Tiebreaker<I>>(
    books: L::Model,
    seen: T::Model,
    set: Seq<I>,
    capacity: u32,
    next: I,
    evicting: Seq<I>,
    rounds_left: nat,
)
    requires
        T::deterministic(),
        T::tracks(seen, set),
        distinct_ids(set),
        total_size(set) <= capacity,
        next.spec_size() <= capacity,
        distinct_ids(evicting),
        items_of(evicting, set),
        without_all(set, evicting).len() <= rounds_left,
    ensures
        distinct_ids(rounds::<L, I, T>(books, seen, set, capacity, next, evicting, rounds_left).1),
        items_of(
            rounds::<L, I, T>(books, seen, set, capacity, next, evicting, rounds_left).1,
            set,
        ),
        room_missing(
            set,
            capacity,
            next,
            rounds::<L, I, T>(books, seen, set, capacity, next, evicting, rounds_left).1,
        ) == 0,
        rounds::<L, I, T>(books, seen, set, capacity, next, evicting, rounds_left).1.len()
            >= evicting.len(),
        room_missing(set, capacity, next, evicting) > 0 ==> rounds::<L, I, T>(
            books,
            seen,
            set,
            capacity,
            next,
            evicting,
            rounds_left,
        ).1.len() > evicting.len(),
    decreases rounds_left,
{
    reveal(rounds);
    if room_missing(set, capacity, next, evicting) > 0 {
        let chosen = lemma_round_picks::<L, I, T>(books, seen, set, capacity, next, evicting);
        lemma_rounds::<L, I, T>(
            L::model_charge(books, without_all(set, evicting)),
            seen,
            set,
            capacity,
            next,
            evicting + chosen,
            (rounds_left - 1) as nat,
        );
    }
}

/// The landlord replacement algorithm.
///
/// Detailed in this paper: <https://arxiv.org/abs/cs/0205033>
///
/// The tiebreaker (for evicting multiple zero-credit items) defaults to Lru.
pub struct Landlord<
    L: CreditLedger<I>,
    I: Item = GeneralModelItem,
    T: Tiebreaker<I> = Lru<GeneralModelItem>,
> {
    credit: L,
    tiebreaker: T,
    item: PhantomData<I>,
}

/// The mathematical model of a [`Landlord`]: the books of credit and the model
/// of the tiebreaker.
pub ghost struct LandlordModel<C, M> {
    pub ledger: C,
    pub tiebreaker: M,
}

impl<L: CreditLedger<I>, I: Item, T: Tiebreaker<I>> View for Landlord<L, I, T> {
    type V = LandlordModel<L::Model, T::Model>;

    closed spec fn view(&self) -> Self::V {
        LandlordModel { ledger: self.credit.model(), tiebreaker: self.tiebreaker.model() }
    }
}

impl<L: CreditLedger<I>, I: Item, T: Tiebreaker<I> + Default> Landlord<L, I, T> {
    /// Instantiate a new landlord replacement policy on the ledger `credit`,
    /// with a default tiebreaker.
    #[must_use]
    pub fn new(credit: L) -> (landlord: Self)
        requires
            forall|tiebreaker: T| #[trigger]
                call_ensures(T::default, (), tiebreaker) ==> T::tracks(
                    tiebreaker.model(),
                    Seq::<I>::empty(),
                ),
        ensures
            T::tracks(landlord@.tiebreaker, Seq::<I>::empty()),
            landlord@.ledger == credit.model(),
            landlord@.tiebreaker == landlord.spec_tiebreaker().model(),
            landlord.spec_ledger() == credit,
            call_ensures(T::default, (), landlord.spec_tiebreaker()),
    {
        Self { credit, tiebreaker: T::default(), item: PhantomData }
    }
}

impl<L: CreditLedger<I> + Default, I: Item, T: Tiebreaker<I> + Default> Default for Landlord<
    L,
    I,
    T,
> {
    fn default() -> (landlord: Self)
        ensures
            landlord@.ledger == landlord.spec_ledger().model(),
            landlord@.tiebreaker == landlord.spec_tiebreaker().model(),
            call_ensures(L::default, (), landlord.spec_ledger()),
            call_ensures(T::default, (), landlord.spec_tiebreaker()),
    {
        Self { credit: L::default(), tiebreaker: T::default(), item: PhantomData }
    }
}

impl<L: CreditLedger<I>, I: Item, T: Tiebreaker<I>> Landlord<L, I, T> {
    /// The tiebreaker, as a mathematical value.
    pub closed spec fn spec_tiebreaker(&self) -> T {
        self.tiebreaker
    }

    /// The ledger, as a mathematical value.
    pub closed spec fn spec_ledger(&self) -> L {
        self.credit
    }

    /// Instantiate a new landlord replacement policy on the ledger `credit`,
    /// with a specifically configured tiebreaker.
    #[must_use]
    pub fn with_tiebreaker(tiebreaker: T, credit: L) -> (landlord: Self)
        requires
            T::tracks(tiebreaker.model(), Seq::<I>::empty()),
        ensures
            landlord@.tiebreaker == tiebreaker.model(),
            landlord@.ledger == credit.model(),
            landlord.spec_tiebreaker() == tiebreaker,
            landlord.spec_ledger() == credit,
    {
        Self { credit, tiebreaker, item: PhantomData }
    }

    /// The ledger of this landlord.
    pub fn ledger(&self) -> (ledger: &L)
        ensures
            *ledger == self.spec_ledger(),
            ledger.model() == self@.ledger,
    {
        &self.credit
    }
}

impl<L: CreditLedger<I>, I: Item, T: Tiebreaker<I>> ReplacementPolicy<I> for Landlord<L, I, T> {
    type Model = LandlordModel<L::Model, T::Model>;

    open spec fn model(&self) -> Self::Model {
        self@
    }

    open spec fn tracks(model: Self::Model, resident: Seq<I>) -> bool {
        T::tracks(model.tiebreaker, resident)
    }

    /// The ledger's books are a function of what it is told, so the policy is
    /// deterministic where its tiebreaker is.
    open spec fn deterministic() -> bool {
        T::deterministic()
    }

    open spec fn size_aware() -> bool {
        true
    }

    /// The ledger records the access, as a hit if the item is resident, and
    /// the tiebreaker sees it.
    open spec fn model_update(model: Self::Model, set: Seq<I>, capacity: u32, next: I) -> Self::Model {
        LandlordModel {
            ledger: L::model_access(model.ledger, next, has_id(set, next.spec_id())),
            tiebreaker: T::model_update(model.tiebreaker, set, capacity, next),
        }
    }

    /// The ledger and the tiebreaker see the access, and the ledger charges
    /// the rent of every round.
    open spec fn model_replace(model: Self::Model, set: Seq<I>, capacity: u32, next: I) -> Self::Model {
        let seen = Self::model_update(model, set, capacity, next);
        LandlordModel {
            ledger: rounds::<L, I, T>(
                seen.ledger,
                seen.tiebreaker,
                set,
                capacity,
                next,
                Seq::empty(),
                set.len(),
            ).0,
            tiebreaker: seen.tiebreaker,
        }
    }

    /// The items that the rounds of rent and eviction pick, after the ledger
    /// and the tiebreaker have seen the access.
    open spec fn model_victims(model: Self::Model, set: Seq<I>, capacity: u32, next: I) -> Seq<I> {
        let seen = Self::model_update(model, set, capacity, next);
        rounds::<L, I, T>(
            seen.ledger,
            seen.tiebreaker,
            set,
            capacity,
            next,
            Seq::empty(),
            set.len(),
        ).1
    }

    proof fn lemma_victims_suffice(model: Self::Model, set: Seq<I>, capacity: u32, next: I) {
        if T::deterministic() {
            let seen = Self::model_update(model, set, capacity, next);
            T::lemma_update_tracks(model.tiebreaker, set, capacity, next);
            lemma_with_item(set, next);
            T::lemma_tracks_part(seen.tiebreaker, with_item(set, next), set);
            assert(without_all(set, Seq::<I>::empty()) == set);
            lemma_rounds::<L, I, T>(
                seen.ledger,
                seen.tiebreaker,
                set,
                capacity,
                next,
                Seq::empty(),
                set.len(),
            );
            lemma_without_all_size(set, Self::model_victims(model, set, capacity, next));
        }
    }

    proof fn lemma_update_tracks(model: Self::Model, set: Seq<I>, capacity: u32, next: I) {
        T::lemma_update_tracks(model.tiebreaker, set, capacity, next);
    }

    proof fn lemma_replace_tracks(model: Self::Model, set: Seq<I>, capacity: u32, next: I) {
        if T::deterministic() {
            let seen = Self::model_update(model, set, capacity, next);
            let victims = Self::model_victims(model, set, capacity, next);
            T::lemma_update_tracks(model.tiebreaker, set, capacity, next);
            lemma_with_item(set, next);
            T::lemma_tracks_part(seen.tiebreaker, with_item(set, next), set);
            assert(without_all(set, Seq::<I>::empty()) == set);
            lemma_rounds::<L, I, T>(
                seen.ledger,
                seen.tiebreaker,
                set,
                capacity,
                next,
                Seq::empty(),
                set.len(),
            );
            lemma_without_all(set, victims);
            lemma_with_item(without_all(set, victims), next);
            T::lemma_tracks_part(
                seen.tiebreaker,
                with_item(set, next),
                with_item(without_all(set, victims), next),
            );
        }
    }

    /// The ledger records the access, as a hit if the item is resident, and
    /// the tiebreaker sees it.
    fn update_state(&mut self, set: &ItemSet<I>, capacity: u32, next: I)
        ensures
            final(self)@.ledger == L::model_access(
                old(self)@.ledger,
                next,
                has_id(set@, next.spec_id()),
            ),
    {
        self.credit.access(next, set.contains(&next));
        self.tiebreaker.update_state(set, capacity, next);
    }

    /// The ledger and the tiebreaker see the access. Then come rounds of rent
    /// and eviction, until `next` fits: the items that are left pay rent, and
    /// the tiebreaker picks among those that are out of credit. With a
    /// deterministic tiebreaker the items that leave and the books afterwards
    /// are those of `rounds`. Whatever the tiebreaker, every item that is
    /// evicted is out of credit, and without the last of them `next` would
    /// not fit.
    #[verifier::rlimit(25)]
    fn replace(&mut self, set: &ItemSet<I>, capacity: u32, next: I) -> (evicted: ItemSet<I>)
        ensures
            total_size(evicted@.drop_last()) < room_needed(set@, capacity, next),
            forall|i: int|
                0 <= i < evicted@.len() ==> L::out_of_credit(
                    final(self)@.ledger,
                    #[trigger] evicted@[i],
                ),
    {
        self.update_state(set, capacity, next);
        let ghost seen = self.tiebreaker.model();
        let ghost whole = rounds::<L, I, T>(
            self.credit.model(),
            seen,
            set@,
            capacity,
            next,
            Seq::empty(),
            set@.len(),
        );
        let ghost mut rounds_left: nat = set@.len();
        let mut to_evict: ItemSet<I> = ItemSet::new();
        let mut tenants: ItemSet<I> = set.clone();
        let mut missing: u32 = missing_room(&tenants, capacity, next);
        proof {
            lemma_with_item(set@, next);
            lemma_without_all_len(set@, to_evict@);
            lemma_without_all_size(set@, to_evict@);
        }
        while missing > 0
            invariant
                set.wf(),
                total_size(set@) <= capacity,
                next.spec_size() <= capacity,
                to_evict.wf(),
                items_of(to_evict@, set@),
                tenants.wf(),
                tenants@ == without_all(set@, to_evict@),
                tenants@.len() + to_evict@.len() == set@.len(),
                total_size(tenants@) + total_size(to_evict@) == total_size(set@),
                missing == room_missing(set@, capacity, next, to_evict@),
                T::tracks(seen, with_item(set@, next)),
                self.tiebreaker.model() == seen,
                tenants@.len() <= rounds_left,
                T::deterministic() ==> rounds::<L, I, T>(
                    self.credit.model(),
                    seen,
                    set@,
                    capacity,
                    next,
                    to_evict@,
                    rounds_left,
                ) == whole,
                to_evict@.len() > 0 ==> total_size(to_evict@.drop_last()) < room_needed(
                    set@,
                    capacity,
                    next,
                ),
                forall|i: int|
                    0 <= i < to_evict@.len() ==> L::out_of_credit(
                        self.credit.model(),
                        #[trigger] to_evict@[i],
                    ),
            decreases tenants@.len(),
        {
            let ghost before = to_evict@;
            let ghost books = self.credit.model();
            proof {
                lemma_without_all(set@, before);
                lemma_with_item(set@, next);
                T::lemma_tracks_part(seen, with_item(set@, next), tenants@);
                assert forall|i: int| 0 <= i < before.len() implies !has_id(
                    tenants@,
                    (#[trigger] before[i]).spec_id(),
                ) by {
                    assert(has_id(before, before[i].spec_id()));
                }
            }
            let reported = self.credit.charge_rent(&tenants);
            proof {
                lemma_reported_by::<L, I>(self.credit.model(), tenants@);
                assert(reported@ == reported_by::<L, I>(self.credit.model(), tenants@));
            }
            let chosen = evict_out_of_credit(&mut self.tiebreaker, &tenants, &reported, missing);
            proof {
                assert(tenants@.len() > 0) by {
                    if tenants@.len() == 0 {
                        assert(total_size(tenants@) == 0);
                    }
                }
                if T::deterministic() {
                    lemma_round::<L, I, T>(books, seen, set@, capacity, next, before, rounds_left);
                }
                rounds_left = (rounds_left - 1) as nat;
                assert forall|i: int| 0 <= i < chosen@.len() implies set@.contains(
                    #[trigger] chosen@[i],
                ) && !has_id(before, chosen@[i].spec_id()) && L::out_of_credit(
                    self.credit.model(),
                    chosen@[i],
                ) by {
                    assert(tenants@.contains(chosen@[i]));
                    let p = choose|p: int| 0 <= p < tenants@.len() && tenants@[p] == chosen@[i];
                    assert(has_id(tenants@, tenants@[p].spec_id()));
                    assert(reported@.contains(chosen@[i]));
                    let r = choose|r: int| 0 <= r < reported@.len() && reported@[r] == chosen@[i];
                }
                lemma_total_size_add(before, chosen@.drop_last());
                assert((before + chosen@).drop_last() =~= before + chosen@.drop_last());
            }
            let mut k: usize = 0;
            while k < chosen.len()
                invariant
                    k <= chosen@.len(),
                    chosen.wf(),
                    to_evict.wf(),
                    to_evict@ == before + chosen@.take(k as int),
                    distinct_ids(before),
                    forall|i: int|
                        0 <= i < chosen@.len() ==> !has_id(before, (#[trigger] chosen@[i]).spec_id()),
                decreases chosen@.len() - k,
            {
                let item = chosen.get(k);
                proof {
                    let sofar = before + chosen@.take(k as int);
                    assert(!has_id(sofar, item.spec_id())) by {
                        if has_id(sofar, item.spec_id()) {
                            let j = choose|j: int|
                                0 <= j < sofar.len() && (#[trigger] sofar[j]).spec_id()
                                    == item.spec_id();
                            if j < before.len() {
                                assert(before[j].spec_id() == item.spec_id());
                            } else {
                                assert(chosen@[j - before.len()].spec_id() != chosen@[k as int].spec_id());
                            }
                        }
                    }
                    assert(sofar.push(item) =~= before + chosen@.take(k + 1));
                }
                to_evict.insert(item);
                k += 1;
            }
            proof {
                assert(chosen@.take(chosen@.len() as int) =~= chosen@);
                let after = before + chosen@;
                assert forall|i: int| 0 <= i < after.len() implies set@.contains(#[trigger] after[i])
                    && L::out_of_credit(self.credit.model(), after[i]) by {
                    if i < before.len() {
                        assert(after[i] == before[i]);
                        assert(L::out_of_credit(books, before[i]));
                    } else {
                        assert(after[i] == chosen@[i - before.len()]);
                    }
                }
                lemma_without_all_len(set@, after);
                lemma_without_all_size(set@, after);
            }
            tenants = set.without(&to_evict);
            missing = missing_room(&tenants, capacity, next);
        }
        proof {
            lemma_rounds_over::<L, I, T>(
                self.credit.model(),
                seen,
                set@,
                capacity,
                next,
                to_evict@,
                rounds_left,
            );
            lemma_without_all(set@, to_evict@);
            lemma_with_item(set@, next);
            lemma_with_item(without_all(set@, to_evict@), next);
            if to_evict@.len() == 0 {
                assert(without_all(set@, to_evict@) == set@);
            }
            T::lemma_tracks_part(
                seen,
                with_item(set@, next),
                with_item(without_all(set@, to_evict@), next),
            );
        }
        to_evict
    }
}

/// The room that is to be freed before `next` fits beside `tenants`; zero
/// where it fits.
pub fn missing_room<I: Item>(tenants: &ItemSet<I>, capacity: u32, next: I) -> (missing: u32)
    requires
        total_size(tenants@) <= capacity,
    ensures
        missing == if total_size(tenants@) + next.spec_size() > capacity {
            total_size(tenants@) + next.spec_size() - capacity
        } else {
            0
        },
{
    let taken: u128 = tenants.total_size() + next.size() as u128;
    if taken > capacity as u128 {
        (taken - capacity as u128) as u32
    } else {
        0
    }
}

} // verus!
