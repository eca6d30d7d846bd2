use approx::AbsDiffEq;
use cache_sim::item::Item;
use cache_sim::item_set::ItemSet;
use cache_sim::replacement_policy::credits::UniformCredits;
use cache_sim::replacement_policy::landlord::{
    evict_out_of_credit, missing_room, CreditLedger, Tenants,
};
use cache_sim::replacement_policy::ReplacementPolicy;
use cache_sim::{Cache, GeneralModelGenerator, GeneralModelItem, Landlord, Lru};
use std::collections::HashMap;

/// A ledger of credits in floating point. The books are their own model.
#[derive(Clone, Default)]
struct Credits {
    credit: HashMap<u64, f64>,
    credit_increase: f64,
    /// The items that went out of credit, round by round.
    zeroed: Vec<Vec<u64>>,
}

impl Credits {
    fn new(credit_increase: f64) -> Self {
        Self { credit: HashMap::new(), credit_increase, zeroed: Vec::new() }
    }
}

impl CreditLedger<GeneralModelItem> for Credits {
    type Model = Credits;

    fn model(&self) -> Credits {
        self.clone()
    }

    fn model_access(mut model: Credits, item: GeneralModelItem, resident: bool) -> Credits {
        let cost = f64::from_bits(item.cost_bits());
        match model.credit.get_mut(&item.id()) {
            Some(credit) if resident => {
                *credit += (cost - *credit) * model.credit_increase;
            }
            _ => {
                model.credit.insert(item.id(), cost);
            }
        }
        model
    }

    /// Verified code reasons with this function; nothing runs it.
    fn model_charge(_model: Credits, _tenants: Tenants<GeneralModelItem>) -> Credits {
        unreachable!()
    }

    fn lemma_rent_is_paid(_model: Credits, _tenants: Tenants<GeneralModelItem>) {}

    fn out_of_credit(model: Credits, item: GeneralModelItem) -> bool {
        f64::abs_diff_eq(&model.credit[&item.id()], &0.0, f64::EPSILON)
    }

    fn access(&mut self, item: GeneralModelItem, resident: bool) {
        *self = Self::model_access(self.clone(), item, resident);
    }

    fn charge_rent(&mut self, tenants: &ItemSet<GeneralModelItem>) -> ItemSet<GeneralModelItem> {
        let mut delta = f64::MAX;
        for i in 0..tenants.len() {
            let item = tenants.get(i);
            let item_delta = self.credit[&item.id()] / f64::from(item.size());
            if item_delta < delta {
                delta = item_delta;
            }
        }
        let mut zeroed = Vec::new();
        let mut reported = ItemSet::new();
        for i in 0..tenants.len() {
            let item = tenants.get(i);
            *self.credit.get_mut(&item.id()).unwrap() -= delta * f64::from(item.size());
            if Self::out_of_credit(self.clone(), item) {
                zeroed.push(item.id());
                reported.insert(item);
            }
        }
        self.zeroed.push(zeroed);
        // the rent brings the lowest credit to zero
        assert!(!reported.is_empty());
        reported
    }
}

type FloatLandlord = Landlord<Credits, GeneralModelItem, Lru<GeneralModelItem>>;

fn landlord_cache(capacity: u32) -> Cache<FloatLandlord, (), GeneralModelItem> {
    Cache::with_replacement_policy(Landlord::new(Credits::new(1.0)), capacity)
}

fn sorted_ids(set: &ItemSet<GeneralModelItem>) -> Vec<u64> {
    let mut ids = set.ids();
    ids.sort();
    ids
}

#[test]
fn lru_tiebreaker() {
    let mut cache = landlord_cache(3);
    let mut gen = GeneralModelGenerator::new();

    let a = gen.item(1.0f64.to_bits(), 1);
    let b = gen.item(2.0f64.to_bits(), 2);
    let c = gen.item(1.0f64.to_bits(), 1);

    cache.access(a);
    cache.access(b);
    cache.access(c);

    // should evict a because LRU
    assert_eq!(sorted_ids(cache.set()), vec![b.id(), c.id()]);
}

#[test]
fn credit_not_cost() {
    // the delta is computed with the credit, not the cost
    let mut cache = landlord_cache(3);
    let mut gen = GeneralModelGenerator::new();

    let itm_a = gen.item(2.0f64.to_bits(), 1);
    let itm_b = gen.item(3.0f64.to_bits(), 1);
    let itm_c = gen.item(3.0f64.to_bits(), 1);
    let itm_z = gen.item(2.0f64.to_bits(), 1);
    let itm_d = gen.item(1.0f64.to_bits(), 1);

    cache.access(itm_a);
    cache.access(itm_b);
    cache.access(itm_c);
    cache.access(itm_z);
    cache.access(itm_d);
    cache.access(itm_a);

    assert_eq!(sorted_ids(cache.set()), vec![itm_a.id(), itm_z.id(), itm_d.id()]);
}

#[test]
fn landlord_keeps_the_costly_item() {
    let mut cache = landlord_cache(3);
    let mut g = GeneralModelGenerator::new();

    let a = g.item(1.0f64.to_bits(), 1);
    let b = g.item(0.5f64.to_bits(), 2);
    let c = g.item(100.0f64.to_bits(), 2);
    let d = g.item(1.0f64.to_bits(), 1);

    cache.access(a);
    cache.access(b);
    cache.access(c);
    cache.access(d);

    assert_eq!(sorted_ids(cache.set()), vec![c.id(), d.id()]);
}

#[test]
fn landlord_evicts_only_items_out_of_credit() {
    let costs = [1.0f64, 2.0, 100.0, 1.0];
    let sizes = [1u32, 2, 2, 1];
    let mut g = GeneralModelGenerator::new();
    let mut policy: FloatLandlord = Landlord::new(Credits::new(1.0));
    let mut set = ItemSet::new();
    let mut used = 0;
    for k in 0..4 {
        let item = g.item(costs[k].to_bits(), sizes[k]);
        if set.contains(&item) || used + item.size() <= 3 {
            policy.update_state(&set, 3, item);
        } else {
            let rounds = policy.ledger().zeroed.len();
            let evicted = policy.replace(&set, 3, item);
            assert!(!evicted.is_empty());
            for i in 0..evicted.len() {
                let gone = evicted.get(i);
                let ledger = policy.ledger();
                // what goes is out of credit, and went out of credit in this eviction
                assert!(ledger.credit[&gone.id()].abs() <= f64::EPSILON);
                assert!(ledger.zeroed[rounds..].iter().any(|round| round.contains(&gone.id())));
                set.remove(&gone);
                used -= gone.size();
            }
        }
        set.insert(item);
        used += item.size();
        assert!(used <= 3);
    }
    // the two cheap items had the lowest credit for their size and went first
    assert_eq!(policy.ledger().zeroed, vec![vec![0, 1]]);
    assert_eq!(sorted_ids(&set), vec![2, 3]);
    // the costly item came after the rent was charged
    assert_eq!(policy.ledger().credit[&2], 100.0);
    assert_eq!(policy.ledger().credit[&3], 1.0);
}

#[test]
fn landlord_charges_rent_round_after_round() {
    // four items of size 2 with credits 1, 2, 3, 4: an item of size 5 needs three of them
    let mut g = GeneralModelGenerator::new();
    let items: Vec<GeneralModelItem> =
        [1.0f64, 2.0, 3.0, 4.0].iter().map(|c| g.item(c.to_bits(), 2)).collect();
    let mut cache = landlord_cache(8);
    for &item in &items {
        cache.access(item);
    }
    let big = g.item(10.0f64.to_bits(), 5);
    cache.access(big);
    assert_eq!(sorted_ids(cache.set()), vec![3, 4]);
    assert_eq!(cache.set().total_size(), 7);
}

#[test]
fn landlord_raises_credit_on_a_hit() {
    let mut g = GeneralModelGenerator::new();
    let a = g.item(4.0f64.to_bits(), 1);
    let b = g.item(6.0f64.to_bits(), 1);
    let c = g.item(1.0f64.to_bits(), 1);
    let d = g.item(1.0f64.to_bits(), 1);
    let mut cache: Cache<FloatLandlord, (), GeneralModelItem> =
        Cache::with_replacement_policy(Landlord::new(Credits::new(0.5)), 2);
    cache.access(a);
    cache.access(b);
    // rent of 4 each: a is out of credit and goes, b keeps 2
    cache.access(c);
    assert_eq!(sorted_ids(cache.set()), vec![1, 2]);
    // a hit takes b half of the way back to its cost
    cache.access(b);
    // rent of 1 each: c goes, b keeps 3
    cache.access(d);
    assert_eq!(sorted_ids(cache.set()), vec![1, 3]);
}

#[test]
fn a_round_evicts_in_the_order_of_the_tiebreaker() {
    let mut tiebreaker = Lru::<GeneralModelItem>::new();
    let mut tenants = ItemSet::new();
    let items: Vec<GeneralModelItem> =
        (0..4u64).map(|id| GeneralModelItem::new(id, 0, 2)).collect();
    for &item in &items {
        tiebreaker.update_state(&tenants, 8, item);
        tenants.insert(item);
    }
    let next = GeneralModelItem::new(9, 0, 5);
    // 8 are taken, 5 come in: 5 are missing
    assert_eq!(missing_room(&tenants, 8, next), 5);
    assert_eq!(missing_room(&tenants, 8, GeneralModelItem::new(9, 0, 0)), 0);
    assert_eq!(missing_room(&ItemSet::new(), 8, next), 0);

    // 3 and 1 are out of credit: both go, least recently used first
    let mut reported = ItemSet::new();
    reported.insert(items[3]);
    reported.insert(items[1]);
    assert_eq!(evict_out_of_credit(&mut tiebreaker, &tenants, &reported, 5).ids(), vec![1, 3]);
    // where less is missing the least recently used of them is enough
    assert_eq!(evict_out_of_credit(&mut tiebreaker, &tenants, &reported, 2).ids(), vec![1]);
    assert_eq!(evict_out_of_credit(&mut tiebreaker, &tenants, &reported, 3).ids(), vec![1, 3]);
}

#[test]
fn landlord_takes_a_configured_tiebreaker() {
    let mut tiebreaker = Lru::<GeneralModelItem>::new();
    let a = GeneralModelItem::new(1, 1.0f64.to_bits(), 1);
    let b = GeneralModelItem::new(2, 1.0f64.to_bits(), 1);
    let mut set = ItemSet::new();
    // the tiebreaker has seen b before the landlord sees a
    tiebreaker.update_state(&set, 2, b);
    let mut landlord = Landlord::with_tiebreaker(tiebreaker, Credits::new(1.0));
    landlord.update_state(&set, 2, a);
    set.insert(a);
    landlord.update_state(&set, 2, b);
    set.insert(b);
    let next = GeneralModelItem::new(3, 1.0f64.to_bits(), 1);
    // both are out of credit after the rent; a is the least recently used
    assert_eq!(landlord.replace(&set, 2, next).ids(), vec![1]);
}

#[test]
fn out_of_credit_items_are_the_only_ones_to_go() {
    let mut g = GeneralModelGenerator::new();
    let items: Vec<GeneralModelItem> =
        [5.0f64, 1.0, 3.0, 1.0, 4.0].iter().map(|c| g.item(c.to_bits(), 1)).collect();
    let mut policy: FloatLandlord = Landlord::new(Credits::new(1.0));
    let mut set = ItemSet::new();
    for &item in &items {
        policy.update_state(&set, 5, item);
        set.insert(item);
    }
    let next = g.item(2.0f64.to_bits(), 2);
    let evicted = policy.replace(&set, 5, next);
    // the two items of cost one run out of credit in the first round
    assert_eq!(evicted.ids(), vec![1, 3]);
    for i in 0..evicted.len() {
        assert!(Credits::out_of_credit(policy.ledger().clone(), evicted.get(i)));
    }
    // the others have paid a rent of one each and are not out of credit
    for id in [0u64, 2, 4] {
        assert!(!Credits::out_of_credit(policy.ledger().clone(), items[id as usize]));
    }
    assert_eq!(policy.ledger().credit[&0], 4.0);
    assert_eq!(policy.ledger().credit[&next.id()], 2.0);
}

#[test]
fn uniform_credits_charge_whole_rent() {
    let mut books = UniformCredits::new(10);
    let mut tenants = ItemSet::new();
    for (id, size) in [(0u64, 3u32), (1, 4), (2, 0), (3, 1)] {
        let item = GeneralModelItem::new(id, 0, size);
        books.access(item, false);
        tenants.insert(item);
    }
    assert_eq!(books.credit(1), 10);
    assert_eq!(books.credit(7), 0);
    // the rent is the least of 10/3, 10/4 and 10/1: two for each unit of size
    let reported = books.charge_rent(&tenants);
    assert_eq!((books.credit(0), books.credit(1), books.credit(2), books.credit(3)), (4, 2, 10, 8));
    // who has less credit than size is out of credit
    assert_eq!(reported.ids(), vec![1]);
    // the next rent is the least of 4/3, 2/4 and 8/1: nothing, and nobody pays
    let reported = books.charge_rent(&tenants);
    assert_eq!(reported.ids(), vec![1]);
    assert_eq!((books.credit(0), books.credit(1)), (4, 2));
    // a hit gives the full credit again
    books.access(GeneralModelItem::new(1, 0, 4), true);
    assert_eq!(books.credit(1), 10);
    let reported = books.charge_rent(&tenants);
    // the least of 4/3, 10/4 and 8/1 is one
    assert_eq!((books.credit(0), books.credit(1), books.credit(3)), (1, 6, 7));
    assert_eq!(reported.ids(), vec![0]);
}

#[test]
fn landlord_on_uniform_credits() {
    let mut cache: Cache<Landlord<UniformCredits, u32, Lru<u32>>, (), u32> =
        Cache::with_replacement_policy(Landlord::new(UniformCredits::new(1)), 3);
    for a in [0u32, 1, 2, 0, 3] {
        cache.access(a);
    }
    // with one cost and one size all run out of credit together, and the
    // least recently used goes
    assert_eq!(sorted_ids_of(cache.set().ids()), vec![0, 2, 3]);
    assert_eq!(cache.policy().ledger().credit(3), 1);
    assert_eq!(cache.policy().ledger().credit(1), 0);
    let mut fresh: Cache<Landlord<UniformCredits, u32, Lru<u32>>, (), u32> = Cache::new(2);
    for a in [5u32, 6, 7] {
        fresh.access(a);
    }
    assert_eq!(sorted_ids_of(fresh.set().ids()), vec![6, 7]);
}

#[test]
fn landlord_replays_alike() {
    let mut g = GeneralModelGenerator::new();
    let items: Vec<GeneralModelItem> = [(1.0f64, 1u32), (2.0, 2), (100.0, 2), (1.0, 1), (3.0, 1)]
        .iter()
        .map(|(cost, size)| g.item(cost.to_bits(), *size))
        .collect();
    let order = [0usize, 1, 2, 3, 0, 4, 1, 3, 2, 0, 4];
    let mut one = landlord_cache(3);
    let mut two = landlord_cache(3);
    for &i in &order {
        one.access(items[i]);
    }
    for &i in &order {
        two.access(items[i]);
    }
    assert_eq!(one.set().ids(), two.set().ids());
    assert_eq!(one.policy().ledger().zeroed, two.policy().ledger().zeroed);

    let mut first: Cache<Landlord<UniformCredits, u32, Lru<u32>>, (), u32> = Cache::new(3);
    let mut second: Cache<Landlord<UniformCredits, u32, Lru<u32>>, (), u32> = Cache::new(3);
    for a in [4u32, 1, 2, 4, 3, 1, 5, 4] {
        first.access(a);
    }
    for a in [4u32, 1, 2, 4, 3, 1, 5, 4] {
        second.access(a);
    }
    assert_eq!(first.set().ids(), second.set().ids());
    for id in 1u64..6 {
        assert_eq!(first.policy().ledger().credit(id), second.policy().ledger().credit(id));
    }
}

#[test]
fn the_ledger_reports_in_the_order_of_the_tenants() {
    let mut books = UniformCredits::new(1);
    let mut tenants = ItemSet::new();
    for (id, size) in [(7u64, 2u32), (3, 1), (9, 4), (1, 2)] {
        let item = GeneralModelItem::new(id, 0, size);
        books.access(item, false);
        tenants.insert(item);
    }
    // the rent is nothing; who has less credit than size is reported
    assert_eq!(books.charge_rent(&tenants).ids(), vec![7, 9, 1]);
}

#[test]
fn victims_have_the_least_credit_for_their_size() {
    let mut policy: Landlord<UniformCredits, GeneralModelItem, Lru<GeneralModelItem>> =
        Landlord::new(UniformCredits::new(12));
    let mut set = ItemSet::new();
    let items: Vec<GeneralModelItem> =
        (0u64..4).map(|id| GeneralModelItem::new(id, 0, id as u32 + 1)).collect();
    for &item in &items {
        policy.update_state(&set, 10, item);
        set.insert(item);
    }
    // the credits for each unit of size are 12, 6, 4 and 3
    let next = GeneralModelItem::new(4, 0, 3);
    let evicted = policy.replace(&set, 10, next);
    assert_eq!(evicted.ids(), vec![3]);
    let credits: Vec<u64> = (0u64..5).map(|id| policy.ledger().credit(id)).collect();
    assert_eq!(credits, vec![9, 6, 3, 0, 12]);
    set.remove(&items[3]);
    set.insert(next);
    // now they are 9, 3, 1 and 4
    let evicted = policy.replace(&set, 10, GeneralModelItem::new(5, 0, 4));
    assert_eq!(evicted.ids(), vec![2]);
    let credits: Vec<u64> = (0u64..6).map(|id| policy.ledger().credit(id)).collect();
    assert_eq!(credits, vec![8, 4, 0, 0, 9, 12]);
}

fn sorted_ids_of(mut ids: Vec<u64>) -> Vec<u64> {
    ids.sort();
    ids
}
