//! Books of credit in whole numbers, for items that all cost the same.

use crate::item::Item;
use crate::item_set::{
    distinct_ids, has_id, items_of, lemma_with_item, lemma_without_all, total_size, with_item,
    without_all, ItemSet,
};
use crate::replacement_policy::landlord::{
    lemma_filtered, lemma_round_picks, lemma_rounds, room_missing, rounds, CreditLedger, Landlord,
    LandlordModel, Tenants,
};
use crate::replacement_policy::{must_evict, ReplacementPolicy, Tiebreaker};
use std::collections::HashMap;
use vstd::prelude::*;

verus! {

broadcast use vstd::std_specs::hash::group_hash_axioms;

/// The credit of the item with the id `id` by the books `credit`; none if the
/// books do not know the item.
pub open spec fn credit_of(credit: Map<u64, u64>, id: u64) -> u64 {
    if credit.contains_key(id) {
        credit[id]
    } else {
        0
    }
}

/// The rent for each unit of size that brings the lowest credit of `tenants`
/// as near to zero as whole numbers allow: the least of the credits divided
/// by the sizes. Tenants that take no room pay no rent and do not count;
/// `u64::MAX` if no tenant takes room.
pub open spec fn rent_of<I: Item>(credit: Map<u64, u64>, tenants: Seq<I>) -> u64
    decreases tenants.len(),
{
    if tenants.len() == 0 {
        u64::MAX
    } else {
        let rest = rent_of(credit, tenants.drop_last());
        let last = tenants.last();
        if last.spec_size() > 0 && credit_of(credit, last.spec_id()) / (last.spec_size() as u64)
            < rest {
            credit_of(credit, last.spec_id()) / (last.spec_size() as u64)
        } else {
            rest
        }
    }
}

/// What a tenant has to pay: the rent for each unit of its size; nothing if
/// it takes no room.
pub open spec fn rent_due<I: Item>(rent: u64, tenant: I) -> int {
    if tenant.spec_size() == 0 {
        0
    } else {
        rent * tenant.spec_size()
    }
}

/// The books after each of `tenants` has paid its rent.
pub open spec fn charged<I: Item>(credit: Map<u64, u64>, tenants: Seq<I>, rent: u64) -> Map<
    u64,
    u64,
>
    decreases tenants.len(),
{
    if tenants.len() == 0 {
        credit
    } else {
        let last = tenants.last();
        charged(credit, tenants.drop_last(), rent).insert(
            last.spec_id(),
            (credit_of(credit, last.spec_id()) - rent_due(rent, last)) as u64,
        )
    }
}

/// The rent is no more than any tenant that takes room can pay, and where
/// some tenant takes room, it is what one of them can just pay.
pub proof fn lemma_rent_of<I: Item>(credit: Map<u64, u64>, tenants: Seq<I>)
    ensures
        forall|i: int|
            0 <= i < tenants.len() && (#[trigger] tenants[i]).spec_size() > 0 ==> rent_of(
                credit,
                tenants,
            ) <= credit_of(credit, tenants[i].spec_id()) / (tenants[i].spec_size() as u64),
        total_size(tenants) > 0 ==> exists|i: int|
            0 <= i < tenants.len() && (#[trigger] tenants[i]).spec_size() > 0 && rent_of(
                credit,
                tenants,
            ) == credit_of(credit, tenants[i].spec_id()) / (tenants[i].spec_size() as u64),
    decreases tenants.len(),
{
    if tenants.len() > 0 {
        let init = tenants.drop_last();
        let last = tenants.last();
        lemma_rent_of(credit, init);
        assert forall|i: int|
            0 <= i < tenants.len() && (#[trigger] tenants[i]).spec_size() > 0 implies rent_of(
            credit,
            tenants,
        ) <= credit_of(credit, tenants[i].spec_id()) / (tenants[i].spec_size() as u64) by {
            if i < init.len() {
                assert(init[i] == tenants[i]);
            }
        }
        if total_size(tenants) > 0 {
            let quotient = credit_of(credit, last.spec_id()) / (last.spec_size() as u64);
            if last.spec_size() > 0 && quotient < rent_of(credit, init) {
                assert(tenants[tenants.len() - 1] == last);
            } else if total_size(init) > 0 {
                let w = choose|i: int|
                    0 <= i < init.len() && (#[trigger] init[i]).spec_size() > 0 && rent_of(
                        credit,
                        init,
                    ) == credit_of(credit, init[i].spec_id()) / (init[i].spec_size() as u64);
                assert(tenants[w] == init[w]);
            } else {
                // only the last tenant takes room, and no rent is below `u64::MAX`
                lemma_no_room(credit, init);
                assert(tenants[tenants.len() - 1] == last);
                assert(quotient <= u64::MAX);
            }
        }
    }
}

/// Where no tenant takes room, the rent is `u64::MAX`.
pub proof fn lemma_no_room<I: Item>(credit: Map<u64, u64>, tenants: Seq<I>)
    requires
        total_size(tenants) == 0,
    ensures
        rent_of(credit, tenants) == u64::MAX,
    decreases tenants.len(),
{
    if tenants.len() > 0 {
        lemma_no_room(credit, tenants.drop_last());
    }
}

/// A tenant can pay a rent that is no more than its credit divided by its
/// size, and what a tenant keeps that pays all it can is less than its size.
pub proof fn lemma_rent_due(credit: u64, size: u64, rent: u64)
    requires
        size > 0,
        rent <= credit / size,
    ensures
        rent * size <= credit,
        rent == credit / size ==> credit - rent * size < size,
{
    vstd::arithmetic::div_mod::lemma_fundamental_div_mod(credit as int, size as int);
    vstd::arithmetic::div_mod::lemma_mod_bound(credit as int, size as int);
    let most = (credit / size) as int;
    assert(rent * size <= most * size) by (nonlinear_arith)
        requires
            rent <= most,
            size > 0,
    ;
    assert(most * size == size * most) by (nonlinear_arith);
}

/// What the books hold after the rent is paid: each tenant has its credit
/// less its rent, and the other items have what they had.
pub proof fn lemma_charged<I: Item>(credit: Map<u64, u64>, tenants: Seq<I>, rent: u64)
    requires
        distinct_ids(tenants),
    ensures
        forall|i: int|
            0 <= i < tenants.len() ==> credit_of(
                charged(credit, tenants, rent),
                (#[trigger] tenants[i]).spec_id(),
            ) == (credit_of(credit, tenants[i].spec_id()) - rent_due(rent, tenants[i])) as u64,
        forall|id: u64|
            !has_id(tenants, id) ==> #[trigger] credit_of(charged(credit, tenants, rent), id)
                == credit_of(credit, id),
    decreases tenants.len(),
{
    if tenants.len() > 0 {
        let init = tenants.drop_last();
        let last = tenants.last();
        assert(distinct_ids(init)) by {
            assert forall|i: int, j: int| 0 <= i < j < init.len() implies (#[trigger] init[i]).spec_id()
                != (#[trigger] init[j]).spec_id() by {
                assert(init[i] == tenants[i] && init[j] == tenants[j]);
            }
        }
        lemma_charged(credit, init, rent);
        assert forall|i: int| 0 <= i < tenants.len() implies credit_of(
            charged(credit, tenants, rent),
            (#[trigger] tenants[i]).spec_id(),
        ) == (credit_of(credit, tenants[i].spec_id()) - rent_due(rent, tenants[i])) as u64 by {
            if i < init.len() {
                assert(init[i] == tenants[i]);
                assert(tenants[i].spec_id() != tenants[tenants.len() - 1].spec_id());
            }
        }
        assert forall|id: u64| !has_id(tenants, id) implies #[trigger] credit_of(
            charged(credit, tenants, rent),
            id,
        ) == credit_of(credit, id) by {
            assert(tenants[tenants.len() - 1].spec_id() != id);
            if has_id(init, id) {
                let k = choose|k: int| 0 <= k < init.len() && (#[trigger] init[k]).spec_id() == id;
                assert(tenants[k].spec_id() == id);
            }
            assert(credit_of(charged(credit, init, rent), id) == credit_of(credit, id));
        }
    }
}

/// Books of credit in whole numbers, for items that all cost the same.
///
/// Every access gives an item the full credit `cost`, be it a hit or not.
/// Rent is charged in whole numbers: the rent for each unit of size is the
/// least of the credits divided by the sizes, and an item is out of credit
/// when its credit is less than its size, so that it could not pay a rent of
/// one for each unit. An item that takes no room pays nothing and is never out
/// of credit.
pub struct UniformCredits {
    credit: HashMap<u64, u64>,
    cost: u64,
}

/// The mathematical model of [`UniformCredits`]: the credit of each id, and
/// the cost of a miss.
pub ghost struct UniformCreditsModel {
    pub credit: Map<u64, u64>,
    pub cost: u64,
}

impl View for UniformCredits {
    type V = UniformCreditsModel;

    closed spec fn view(&self) -> UniformCreditsModel {
        UniformCreditsModel { credit: self.credit@, cost: self.cost }
    }
}

impl UniformCredits {
    /// Create empty books for items that cost `cost` each.
    #[must_use]
    pub fn new(cost: u64) -> (books: Self)
        ensures
            books@.credit == Map::<u64, u64>::empty(),
            books@.cost == cost,
    {
        Self { credit: HashMap::new(), cost }
    }

    /// The credit of the item with the id `id`.
    pub fn credit(&self, id: u64) -> (credit: u64)
        ensures
            credit == credit_of(self@.credit, id),
    {
        match self.credit.get(&id) {
            Some(credit) => *credit,
            None => 0,
        }
    }
}

impl Default for UniformCredits {
    /// Books for items that cost one each.
    fn default() -> (books: Self)
        ensures
            books@.credit == Map::<u64, u64>::empty(),
            books@.cost == 1,
    {
        Self::new(1)
    }
}

impl<I: Item> CreditLedger<I> for UniformCredits {
    type Model = UniformCreditsModel;

    open spec fn model(&self) -> UniformCreditsModel {
        self@
    }

    /// The item has the full credit.
    open spec fn model_access(model: UniformCreditsModel, item: I, resident: bool) -> UniformCreditsModel {
        UniformCreditsModel { credit: model.credit.insert(item.spec_id(), model.cost), ..model }
    }

    /// Each tenant has paid the rent for its size.
    open spec fn model_charge(model: UniformCreditsModel, tenants: Tenants<I>) -> UniformCreditsModel {
        UniformCreditsModel {
            credit: charged(model.credit, tenants, rent_of(model.credit, tenants)),
            ..model
        }
    }

    /// The item could not pay a rent of one for each unit of its size.
    open spec fn out_of_credit(model: UniformCreditsModel, item: I) -> bool {
        credit_of(model.credit, item.spec_id()) < item.spec_size()
    }

    /// The tenant that pays all it can keeps less than its size.
    proof fn lemma_rent_is_paid(model: UniformCreditsModel, tenants: Tenants<I>) {
        let rent = rent_of(model.credit, tenants);
        lemma_rent_of(model.credit, tenants);
        lemma_charged(model.credit, tenants, rent);
        let w = choose|w: int|
            0 <= w < tenants.len() && (#[trigger] tenants[w]).spec_size() > 0 && rent == credit_of(
                model.credit,
                tenants[w].spec_id(),
            ) / (tenants[w].spec_size() as u64);
        lemma_rent_due(credit_of(model.credit, tenants[w].spec_id()), tenants[w].spec_size() as u64, rent);
        assert(<Self as CreditLedger<I>>::out_of_credit(
            <Self as CreditLedger<I>>::model_charge(model, tenants),
            tenants[w],
        ));
    }

    fn access(&mut self, item: I, resident: bool) {
        self.credit.insert(item.id(), self.cost);
    }

    fn charge_rent(&mut self, tenants: &ItemSet<I>) -> (reported: ItemSet<I>) {
        let ghost before = self.credit@;
        let mut rent: u64 = u64::MAX;
        let mut i: usize = 0;
        proof {
            assert(tenants@.take(0) =~= Seq::<I>::empty());
        }
        while i < tenants.len()
            invariant
                i <= tenants@.len(),
                self.credit@ == before,
                rent == rent_of(before, tenants@.take(i as int)),
            decreases tenants@.len() - i,
        {
            proof {
                assert(tenants@.take(i + 1).drop_last() =~= tenants@.take(i as int));
                assert(tenants@.take(i + 1).last() == tenants@[i as int]);
            }
            let tenant = tenants.get(i);
            let size = tenant.size();
            if size > 0 {
                let quotient = self.credit(tenant.id()) / (size as u64);
                if quotient < rent {
                    rent = quotient;
                }
            }
            i += 1;
        }
        proof {
            assert(tenants@.take(tenants@.len() as int) =~= tenants@);
            lemma_rent_of(before, tenants@);
            lemma_charged(before, tenants@, rent);
        }
        let ghost after = UniformCreditsModel {
            credit: charged(before, tenants@, rent),
            cost: self.cost,
        };
        let mut reported: ItemSet<I> = ItemSet::new();
        let mut i: usize = 0;
        proof {
            reveal(Seq::filter);
            assert(tenants@.take(0) =~= Seq::<I>::empty());
        }
        while i < tenants.len()
            invariant
                i <= tenants@.len(),
                tenants.wf(),
                rent == rent_of(before, tenants@),
                after.credit == charged(before, tenants@, rent),
                forall|k: int|
                    0 <= k < tenants@.len() && (#[trigger] tenants@[k]).spec_size() > 0 ==> rent
                        <= credit_of(before, tenants@[k].spec_id()) / (tenants@[k].spec_size() as u64),
                self.credit@ == charged(before, tenants@.take(i as int), rent),
                self.cost == old(self).cost,
                reported.wf(),
                reported@ == tenants@.take(i as int).filter(
                    |t: I| <Self as CreditLedger<I>>::out_of_credit(after, t),
                ),
                forall|k: int|
                    0 <= k < tenants@.len() ==> credit_of(
                        charged(before, tenants@, rent),
                        (#[trigger] tenants@[k]).spec_id(),
                    ) == (credit_of(before, tenants@[k].spec_id()) - rent_due(
                        rent,
                        tenants@[k],
                    )) as u64,
            decreases tenants@.len() - i,
        {
            let tenant = tenants.get(i);
            let size = tenant.size();
            let id = tenant.id();
            let ghost sofar = self.credit@;
            let ghost listed = reported@;
            proof {
                reveal(Seq::filter);
                assert(tenants@.take(i + 1).drop_last() =~= tenants@.take(i as int));
                assert(tenants@.take(i + 1).last() == tenant);
                lemma_charged(before, tenants@.take(i as int), rent);
                assert(distinct_ids(tenants@.take(i as int))) by {
                    assert forall|a: int, b: int| 0 <= a < b < i implies (#[trigger] tenants@.take(
                        i as int,
                    )[a]).spec_id() != (#[trigger] tenants@.take(i as int)[b]).spec_id() by {
                        assert(tenants@[a].spec_id() != tenants@[b].spec_id());
                    }
                }
                assert(!has_id(tenants@.take(i as int), id)) by {
                    if has_id(tenants@.take(i as int), id) {
                        let k = choose|k: int|
                            0 <= k < i && (#[trigger] tenants@.take(i as int)[k]).spec_id() == id;
                        assert(tenants@[k].spec_id() != tenants@[i as int].spec_id());
                    }
                }
                lemma_filtered(
                    tenants@.take(i as int),
                    |t: I| <Self as CreditLedger<I>>::out_of_credit(after, t),
                );
                assert(!has_id(listed, id));
                assert(credit_of(sofar, id) == credit_of(before, id));
                if size > 0 {
                    lemma_rent_due(credit_of(before, id), size as u64, rent);
                }
                lemma_with_item(listed, tenant);
            }
            let credit = self.credit(id);
            let due: u64 = if size == 0 {
                0
            } else {
                rent * (size as u64)
            };
            let left = credit - due;
            self.credit.insert(id, left);
            if left < size as u64 {
                reported.insert(tenant);
            }
            proof {
                assert(left == credit_of(after.credit, id));
                assert(reported@ == tenants@.take(i + 1).filter(
                    |t: I| <Self as CreditLedger<I>>::out_of_credit(after, t),
                ));
            }
            i += 1;
        }
        proof {
            assert(tenants@.take(tenants@.len() as int) =~= tenants@);
            assert(self@ == after);
            <Self as CreditLedger<I>>::lemma_rent_is_paid(old(self)@, tenants@);
            lemma_filtered(tenants@, |t: I| <Self as CreditLedger<I>>::out_of_credit(after, t));
            let w = choose|w: int|
                0 <= w < tenants@.len() && <Self as CreditLedger<I>>::out_of_credit(
                    after,
                    #[trigger] tenants@[w],
                );
            assert(has_id(reported@, tenants@[w].spec_id()));
            assert forall|item: I| !has_id(tenants@, item.spec_id()) implies (
            #[trigger] <Self as CreditLedger<I>>::out_of_credit(self@, item) <==> <Self as CreditLedger<
                I,
            >>::out_of_credit(old(self)@, item)) by {
                assert(credit_of(after.credit, item.spec_id()) == credit_of(before, item.spec_id()));
            }
        }
        reported
    }
}

/// The credit of `item` for each unit of its size, in whole numbers.
pub open spec fn share_of<I: Item>(credit: Map<u64, u64>, item: I) -> int {
    credit_of(credit, item.spec_id()) as int / item.spec_size() as int
}

/// A tenant that pays rent has that much less credit for each unit of its
/// size.
pub proof fn lemma_share_after_rent(credit: u64, size: u64, rent: u64)
    requires
        size > 0,
        rent <= credit / size,
    ensures
        rent * size <= credit,
        (credit - rent * size) / (size as int) == credit as int / size as int - rent,
{
    lemma_rent_due(credit, size, rent);
    vstd::arithmetic::div_mod::lemma_fundamental_div_mod(credit as int, size as int);
    vstd::arithmetic::div_mod::lemma_mod_bound(credit as int, size as int);
    let most = credit as int / size as int;
    let rest = credit as int % size as int;
    assert(credit - rent * size == (most - rent) * size + rest) by (nonlinear_arith)
        requires
            credit == size * most + rest,
    ;
    vstd::arithmetic::div_mod::lemma_fundamental_div_mod_converse(
        credit - rent * size,
        size as int,
        most - rent,
        rest,
    );
}

/// Through the rounds of an eviction every tenant that takes room has paid
/// the same for each unit of its size, `paid`, and the items picked had no
/// more than that to pay with. So at the end no item that leaves had more
/// credit for its size, by the books `start` of the beginning, than an item
/// that stays and takes room.
pub proof fn lemma_rounds_owe_least<I: Item, T: Tiebreaker<I>>(
    start: Map<u64, u64>,
    paid: int,
    books: UniformCreditsModel,
    seen: T::Model,
    set: Seq<I>,
    capacity: u32,
    next: I,
    evicting: Seq<I>,
    rounds_left: nat,
)
    requires
        T::deterministic(),
        T::tracks(seen, set),
        distinct_ids(set),
        total_size(set) <= capacity,
        next.spec_size() <= capacity,
        distinct_ids(evicting),
        items_of(evicting, set),
        without_all(set, evicting).len() <= rounds_left,
        paid >= 0,
        forall|j: int|
            0 <= j < set.len() && !has_id(evicting, (#[trigger] set[j]).spec_id())
                && set[j].spec_size() > 0 ==> share_of(books.credit, set[j]) == share_of(
                start,
                set[j],
            ) - paid,
        forall|i: int|
            0 <= i < evicting.len() ==> (#[trigger] evicting[i]).spec_size() > 0 && share_of(
                start,
                evicting[i],
            ) <= paid,
    ensures
        ({
            let victims = rounds::<UniformCredits, I, T>(
                books,
                seen,
                set,
                capacity,
                next,
                evicting,
                rounds_left,
            ).1;
            forall|i: int, j: int|
                #![trigger victims[i], set[j]]
                0 <= i < victims.len() && 0 <= j < set.len() && !has_id(victims, set[j].spec_id())
                    && set[j].spec_size() > 0 ==> victims[i].spec_size() > 0 && share_of(
                    start,
                    victims[i],
                ) <= share_of(start, set[j])
        }),
    decreases rounds_left,
{
    reveal(rounds);
    let victims = rounds::<UniformCredits, I, T>(
        books,
        seen,
        set,
        capacity,
        next,
        evicting,
        rounds_left,
    ).1;
    let tenants = without_all(set, evicting);
    lemma_without_all(set, evicting);
    if room_missing(set, capacity, next, evicting) > 0 {
        let chosen = lemma_round_picks::<UniformCredits, I, T>(
            books,
            seen,
            set,
            capacity,
            next,
            evicting,
        );
        let after = evicting + chosen;
        let rent = rent_of(books.credit, tenants);
        let charged_books = <UniformCredits as CreditLedger<I>>::model_charge(books, tenants);
        lemma_rent_of(books.credit, tenants);
        lemma_charged(books.credit, tenants, rent);
        // every tenant that takes room has paid the rent
        assert forall|j: int|
            0 <= j < set.len() && !has_id(evicting, (#[trigger] set[j]).spec_id())
                && set[j].spec_size() > 0 implies share_of(charged_books.credit, set[j])
            == share_of(start, set[j]) - (paid + rent) by {
            let item = set[j];
            assert(set.contains(item));
            assert(tenants.contains(item));
            let k = choose|k: int| 0 <= k < tenants.len() && tenants[k] == item;
            lemma_share_after_rent(
                credit_of(books.credit, item.spec_id()),
                item.spec_size() as u64,
                rent,
            );
        }
        assert forall|i: int| 0 <= i < after.len() implies (#[trigger] after[i]).spec_size() > 0
            && share_of(start, after[i]) <= paid + rent by {
            if i < evicting.len() {
                assert(after[i] == evicting[i]);
            } else {
                let item = chosen[i - evicting.len()];
                assert(after[i] == item);
                assert(tenants.contains(item));
                assert(set.contains(item));
                let j = choose|j: int| 0 <= j < set.len() && set[j] == item;
                let k = choose|k: int| 0 <= k < tenants.len() && tenants[k] == item;
                assert(has_id(tenants, tenants[k].spec_id()));
                assert(<UniformCredits as CreditLedger<I>>::out_of_credit(charged_books, item));
                vstd::arithmetic::div_mod::lemma_basic_div(
                    credit_of(charged_books.credit, item.spec_id()) as int,
                    item.spec_size() as int,
                );
                assert(share_of(charged_books.credit, set[j]) == 0);
            }
        }
        assert forall|j: int|
            0 <= j < set.len() && !has_id(after, (#[trigger] set[j]).spec_id())
                && set[j].spec_size() > 0 implies share_of(charged_books.credit, set[j])
            == share_of(start, set[j]) - (paid + rent) by {
            if has_id(evicting, set[j].spec_id()) {
                let k = choose|k: int|
                    0 <= k < evicting.len() && (#[trigger] evicting[k]).spec_id()
                        == set[j].spec_id();
                assert(after[k].spec_id() == set[j].spec_id());
            }
        }
        lemma_rounds_owe_least::<I, T>(
            start,
            paid + rent,
            charged_books,
            seen,
            set,
            capacity,
            next,
            after,
            (rounds_left - 1) as nat,
        );
        assert(victims == rounds::<UniformCredits, I, T>(
            charged_books,
            seen,
            set,
            capacity,
            next,
            after,
            (rounds_left - 1) as nat,
        ).1);
    } else {
        assert(victims == evicting);
        assert forall|i: int, j: int|
            0 <= i < evicting.len() && 0 <= j < set.len() && !has_id(
                evicting,
                (#[trigger] set[j]).spec_id(),
            ) && set[j].spec_size() > 0 implies (#[trigger] evicting[i]).spec_size() > 0
            && share_of(start, evicting[i]) <= share_of(start, set[j]) by {
            vstd::arithmetic::div_mod::lemma_div_pos_is_pos(
                credit_of(books.credit, set[j].spec_id()) as int,
                set[j].spec_size() as int,
            );
        }
    }
}

/// Landlord on whole-number books never evicts an item while an item with
/// less credit for its size stays: by the books at the access, every item
/// that leaves has no more credit for each unit of its size than any item
/// that stays and takes room.
pub proof fn lemma_victims_owe_least<I: Item, T: Tiebreaker<I>>(
    model: LandlordModel<UniformCreditsModel, T::Model>,
    set: Seq<I>,
    capacity: u32,
    next: I,
)
    requires
        T::deterministic(),
        T::tracks(model.tiebreaker, set),
        distinct_ids(set),
        total_size(set) <= capacity,
        next.spec_size() <= capacity,
        must_evict(set, capacity, next),
    ensures
        ({
            let victims = Landlord::<UniformCredits, I, T>::model_victims(
                model,
                set,
                capacity,
                next,
            );
            forall|i: int, j: int|
                #![trigger victims[i], set[j]]
                0 <= i < victims.len() && 0 <= j < set.len() && !has_id(victims, set[j].spec_id())
                    && set[j].spec_size() > 0 ==> victims[i].spec_size() > 0 && share_of(
                    model.ledger.credit,
                    victims[i],
                ) <= share_of(model.ledger.credit, set[j])
        }),
{
    let seen = Landlord::<UniformCredits, I, T>::model_update(model, set, capacity, next);
    let victims = Landlord::<UniformCredits, I, T>::model_victims(model, set, capacity, next);
    let start = seen.ledger.credit;
    T::lemma_update_tracks(model.tiebreaker, set, capacity, next);
    lemma_with_item(set, next);
    T::lemma_tracks_part(seen.tiebreaker, with_item(set, next), set);
    assert(without_all(set, Seq::<I>::empty()) == set);
    lemma_rounds::<UniformCredits, I, T>(
        seen.ledger,
        seen.tiebreaker,
        set,
        capacity,
        next,
        Seq::empty(),
        set.len(),
    );
    lemma_rounds_owe_least::<I, T>(
        start,
        0,
        seen.ledger,
        seen.tiebreaker,
        set,
        capacity,
        next,
        Seq::empty(),
        set.len(),
    );
    assert forall|i: int, j: int|
        0 <= i < victims.len() && 0 <= j < set.len() && !has_id(victims, set[j].spec_id())
            && set[j].spec_size() > 0 implies (#[trigger] victims[i]).spec_size() > 0 && share_of(
        model.ledger.credit,
        victims[i],
    ) <= share_of(model.ledger.credit, #[trigger] set[j]) by {
        assert(set.contains(victims[i]));
        let p = choose|p: int| 0 <= p < set.len() && set[p] == victims[i];
        assert(has_id(set, set[p].spec_id()));
        assert(has_id(set, set[j].spec_id()));
    }
}

} // verus!
