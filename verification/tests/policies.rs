use cache_sim::item_set::ItemSet;
use cache_sim::replacement_policy::{ReplacementPolicy, Tiebreaker};
use cache_sim::stats::{HitCount, MissCount, Observed, Observer, Stat};
use cache_sim::{Cache, Fifo, GeneralModelGenerator, GeneralModelItem, Lfu, Lru, Mru, Opt, Rand, Trace};

fn sorted_ids<I: cache_sim::item::Item>(set: &ItemSet<I>) -> Vec<u64> {
    let mut ids = set.ids();
    ids.sort();
    ids
}

fn lru_after(accesses: &[u32]) -> Vec<u64> {
    let mut c = Cache::<Lru>::new(3);
    for &a in accesses {
        c.access(a);
    }
    sorted_ids(c.set())
}

fn mru_after(accesses: &[u32]) -> Vec<u64> {
    let mut c = Cache::<Mru>::new(3);
    for &a in accesses {
        c.access(a);
    }
    sorted_ids(c.set())
}

fn fifo_after(accesses: &[u32]) -> Vec<u64> {
    let mut c = Cache::<Fifo>::new(3);
    for &a in accesses {
        c.access(a);
    }
    sorted_ids(c.set())
}

fn lfu_after(accesses: &[u32]) -> Vec<u64> {
    let mut c = Cache::<Lfu>::new(3);
    for &a in accesses {
        c.access(a);
    }
    sorted_ids(c.set())
}

fn unit() -> u64 {
    1.0f64.to_bits()
}

#[test]
fn lru_counting_up() {
    assert_eq!(lru_after(&[0, 1, 2, 3]), vec![1, 2, 3]);
}

#[test]
fn lru_repeated() {
    assert_eq!(lru_after(&[0, 0, 0, 0]), vec![0]);
}

#[test]
fn lru_one_repetition() {
    assert_eq!(lru_after(&[0, 1, 2, 0, 3]), vec![0, 2, 3]);
}

#[test]
fn lru_cycle() {
    assert_eq!(lru_after(&[0, 1, 2, 0, 1, 2, 0, 1, 2, 3, 3]), vec![1, 2, 3]);
}

#[test]
fn mru_counting_up() {
    assert_eq!(mru_after(&[0, 1, 2, 3]), vec![0, 1, 3]);
}

#[test]
fn mru_repeated() {
    assert_eq!(mru_after(&[0, 0, 0, 0]), vec![0]);
}

#[test]
fn mru_one_repetition() {
    assert_eq!(mru_after(&[0, 1, 2, 0, 3]), vec![1, 2, 3]);
}

#[test]
fn mru_cycle() {
    assert_eq!(mru_after(&[0, 1, 2, 0, 1, 2, 0, 1, 2, 3, 3]), vec![0, 1, 3]);
}

#[test]
fn fifo_counting_up() {
    assert_eq!(fifo_after(&[0, 1, 2, 3]), vec![1, 2, 3]);
}

#[test]
fn fifo_repeated() {
    assert_eq!(fifo_after(&[0, 0, 0, 0]), vec![0]);
}

#[test]
fn fifo_one_repetition() {
    assert_eq!(fifo_after(&[0, 1, 2, 0, 3]), vec![1, 2, 3]);
}

#[test]
fn fifo_cycle() {
    assert_eq!(fifo_after(&[0, 1, 2, 0, 1, 2, 0, 1, 2, 3, 3]), vec![1, 2, 3]);
}

#[test]
fn lfu_evicts_least_frequent() {
    assert_eq!(lfu_after(&[0, 0, 1, 2, 2, 3]), vec![0, 2, 3]);
}

#[test]
fn lfu_breaks_ties_by_recency() {
    // all three were accessed once: the least recently used goes
    assert_eq!(lfu_after(&[0, 1, 2, 3]), vec![1, 2, 3]);
    // 0 is touched again, so 1 is the oldest of those accessed once
    assert_eq!(lfu_after(&[0, 1, 2, 0, 3]), vec![0, 2, 3]);
}

#[test]
fn lfu_keeps_counts_of_evicted_items() {
    // 1 is evicted and comes back with its old count and one more
    let mut c = Cache::<Lfu>::new(2);
    for a in [0u32, 0, 1, 2, 1, 1, 3] {
        c.access(a);
    }
    // counts: 0 -> 2, 1 -> 3, 2 -> 1 (evicted for 1), 3 -> 1; 0 went for 3
    assert_eq!(sorted_ids(c.set()), vec![1, 3]);
}

#[test]
fn lfu_survives_many_evictions() {
    let mut c = Cache::<Lfu>::new(3);
    for a in 0u32..50 {
        c.access(a);
        assert!(c.set().len() <= 3);
    }
    assert_eq!(sorted_ids(c.set()), vec![47, 48, 49]);
}

#[test]
fn lfu_count_is_exposed() {
    let mut policy = Lfu::<u32, Lru>::default();
    let set = ItemSet::<u32>::new();
    policy.update_state(&set, 3, 7);
    policy.update_state(&set, 3, 7);
    policy.update_state(&set, 3, 9);
    assert_eq!(policy.count(7), 2);
    assert_eq!(policy.count(9), 1);
    assert_eq!(policy.count(1), 0);
}

#[test]
fn hit_count_counts_hits() {
    let mut c = Cache::<Lru, HitCount>::new(3);
    c.access(0); // miss
    c.access(1); // miss
    c.access(2); // miss
    c.access(0); // hit
    c.access(3); // miss
    c.access(0); // hit
    assert_eq!(c.stat().0, 2);
}

#[test]
fn miss_count_counts_misses() {
    let mut c = Cache::<Lru, MissCount>::new(3);
    c.access(0); // miss
    c.access(1); // miss
    c.access(2); // miss
    c.access(0); // hit
    c.access(3); // miss
    c.access(0); // hit
    assert_eq!(c.stat().0, 4);
}

#[test]
fn stats_compose_as_tuples() {
    let mut c = Cache::<Lru, (HitCount, MissCount)>::new(3);
    for a in [0u32, 1, 2, 0, 3, 0] {
        c.access(a);
    }
    assert_eq!(c.stat().0 .0, 2);
    assert_eq!(c.stat().1 .0, 4);

    let mut c = Cache::<Lru, (MissCount, HitCount, Trace)>::new(3);
    for a in [0u32, 1, 2, 0, 3, 0] {
        c.access(a);
    }
    assert_eq!(c.stat().0 .0, 4);
    assert_eq!(c.stat().1 .0, 2);
    assert_eq!(c.stat().2.inner(), &[0, 1, 2, 0, 3, 0]);
    assert_eq!(c.stat().2.strides(), &[1, 1, -2, 3, -3]);
}

#[test]
fn counters_stop_at_the_largest_count() {
    let set = ItemSet::<u32>::new();
    let none = ItemSet::<u32>::new();
    let mut misses = MissCount(u32::MAX - 1);
    misses.update(&set, 5, &none);
    assert_eq!(misses.0, u32::MAX);
    misses.update(&set, 5, &none);
    assert_eq!(misses.0, u32::MAX);
    let mut hits = HitCount(u32::MAX);
    let mut resident = ItemSet::<u32>::new();
    resident.insert(5);
    hits.update(&resident, 5, &none);
    assert_eq!(hits.0, u32::MAX);
}

#[test]
fn run_trace_replays_in_order() {
    let mut c = Cache::<Lru>::new(3);
    let t = Trace::from(vec![0, 1, 2, 0, 3]);
    c.run_trace(&t);
    assert_eq!(sorted_ids(c.set()), vec![0, 2, 3]);
    // the resident items stand in the order of their admission
    assert_eq!(c.set().ids(), vec![0, 2, 3]);
}

#[test]
fn capacity_holds_after_every_access() {
    let accesses: Vec<u32> = vec![3, 1, 4, 1, 5, 9, 2, 6, 5, 3, 5, 8, 9, 7, 9, 3, 2, 3, 8, 4];
    let mut lru = Cache::<Lru>::new(4);
    let mut mru = Cache::<Mru>::new(4);
    let mut fifo = Cache::<Fifo>::new(4);
    let mut lfu = Cache::<Lfu>::new(4);
    let mut rand = Cache::<Rand>::new(4);
    for &a in &accesses {
        lru.access(a);
        mru.access(a);
        fifo.access(a);
        lfu.access(a);
        rand.access(a);
        for used in [
            lru.set().total_size(),
            mru.set().total_size(),
            fifo.set().total_size(),
            lfu.set().total_size(),
            rand.set().total_size(),
        ] {
            assert!(used <= 4);
        }
        assert!(lru.set().contains(&a));
        assert!(rand.set().contains(&a));
    }
}

#[test]
fn lru_evicts_as_many_as_the_item_needs() {
    let mut g = GeneralModelGenerator::new();
    let a = g.item(unit(), 2);
    let b = g.item(unit(), 1);
    let c = g.item(unit(), 3);
    let d = g.item(unit(), 4);
    let mut cache = Cache::<Lru<GeneralModelItem>, (), GeneralModelItem>::new(6);
    cache.access(a);
    cache.access(b);
    cache.access(c);
    assert_eq!(cache.set().total_size(), 6);
    // d needs 4: a and b free 3, so c has to go as well
    cache.access(d);
    assert_eq!(sorted_ids(cache.set()), vec![3]);
    // a needs 2 and fits beside d
    cache.access(a);
    assert_eq!(sorted_ids(cache.set()), vec![0, 3]);
    // c needs 3: the least recently used d frees 4
    cache.access(c);
    assert_eq!(sorted_ids(cache.set()), vec![0, 2]);
    assert_eq!(cache.set().total_size(), 5);
}

#[test]
fn lru_replace_returns_the_oldest_residents() {
    let mut g = GeneralModelGenerator::new();
    let a = g.item(unit(), 2);
    let b = g.item(unit(), 2);
    let c = g.item(unit(), 2);
    let d = g.item(unit(), 3);
    let mut policy = Lru::<GeneralModelItem>::new();
    let mut set = ItemSet::new();
    for item in [a, b, c] {
        policy.update_state(&set, 6, item);
        set.insert(item);
    }
    policy.update_state(&set, 6, a);
    let evicted = policy.replace(&set, 6, d);
    // 3 are needed: b and c are the oldest, a was touched
    assert_eq!(evicted.ids(), vec![1, 2]);
}

#[test]
fn lru_tiebreak_takes_the_shortest_prefix() {
    let mut g = GeneralModelGenerator::new();
    let a = g.item(unit(), 1);
    let b = g.item(unit(), 2);
    let c = g.item(unit(), 1);
    let mut policy = Lru::<GeneralModelItem>::new();
    let mut set = ItemSet::new();
    for item in [a, b, c] {
        policy.update_state(&set, 10, item);
        set.insert(item);
    }
    let mut candidates = ItemSet::new();
    candidates.insert(c);
    candidates.insert(b);
    // in recency order the candidates are b, then c
    assert_eq!(policy.tiebreak(&candidates, 1).ids(), vec![1]);
    assert_eq!(policy.tiebreak(&candidates, 2).ids(), vec![1]);
    assert_eq!(policy.tiebreak(&candidates, 3).ids(), vec![1, 2]);
    // more than they can free: all of them
    assert_eq!(policy.tiebreak(&candidates, 9).ids(), vec![1, 2]);
    assert_eq!(policy.tiebreak(&set, 1).ids(), vec![0]);
}

#[test]
fn rand_evicts_one_resident_item() {
    let mut policy = Rand::new();
    let mut set = ItemSet::<u32>::new();
    for i in 0..5u32 {
        set.insert(i);
    }
    for _ in 0..50 {
        let evicted = policy.replace(&set, 5, 9);
        assert_eq!(evicted.len(), 1);
        assert!(set.contains(&evicted.get(0)));
    }
}

#[test]
fn rand_cache_keeps_the_last_access() {
    let mut c = Cache::<Rand>::new(2);
    for a in 0u32..30 {
        c.access(a);
        assert!(c.set().contains(&a));
        assert!(c.set().len() <= 2);
    }
    assert_eq!(c.set().len(), 2);
}

fn misses_of<R: ReplacementPolicy<u32>>(policy: R, capacity: u32, accesses: &[u32]) -> u32 {
    let mut c = Cache::<R, MissCount>::with_replacement_policy(policy, capacity);
    c.run_trace(&Trace::from(accesses.to_vec()));
    c.stat().0
}

#[test]
fn opt_evicts_the_farthest_next_use() {
    let accesses = vec![0u32, 1, 2, 3, 0, 1, 4, 0, 1, 2];
    let trace = Trace::from(accesses.clone());
    let mut c = Cache::<Opt>::with_replacement_policy(Opt::new(&trace), 3);
    for &a in &accesses[..3] {
        c.access(a);
    }
    // 3 comes in: 2 is used again last of the three
    c.access(3);
    assert_eq!(sorted_ids(c.set()), vec![0, 1, 3]);
    c.access(0);
    c.access(1);
    // 4 comes in: 3 is never used again
    c.access(4);
    assert_eq!(sorted_ids(c.set()), vec![0, 1, 4]);
    c.access(0);
    c.access(1);
    // 2 comes in and nothing is used again: the first admitted goes
    c.access(2);
    assert_eq!(sorted_ids(c.set()), vec![1, 2, 4]);
}

#[test]
fn opt_counts_the_accesses_to_the_next_use() {
    let trace = Trace::from(vec![5u32, 6, 5, 7]);
    let policy = Opt::new(&trace);
    assert_eq!(policy.next_use(5), 0);
    assert_eq!(policy.next_use(6), 1);
    assert_eq!(policy.next_use(7), 3);
    assert_eq!(policy.next_use(8), 4);
}

#[test]
fn opt_never_misses_more_than_the_others() {
    // a small generator of traces: a linear congruential sequence
    let mut state: u32 = 12345;
    for round in 0..40u32 {
        let len = 20 + (round % 7) * 5;
        let alphabet = 4 + round % 5;
        let capacity = 2 + round % 3;
        let mut accesses = Vec::new();
        for _ in 0..len {
            state = state.wrapping_mul(1103515245).wrapping_add(12345);
            accesses.push((state >> 16) % alphabet);
        }
        let trace = Trace::from(accesses.clone());
        let opt = misses_of(Opt::new(&trace), capacity, &accesses);
        assert!(opt <= misses_of(Lru::<u32>::new(), capacity, &accesses));
        assert!(opt <= misses_of(Fifo::<u32>::new(), capacity, &accesses));
        assert!(opt <= misses_of(Mru::<u32>::new(), capacity, &accesses));
        assert!(opt <= misses_of(Lfu::<u32, Lru>::default(), capacity, &accesses));
    }
}

#[test]
fn replay_is_deterministic() {
    let accesses: Vec<u32> = vec![3, 1, 4, 1, 5, 9, 2, 6, 5, 3, 5, 8, 9, 7, 9, 3, 2, 3, 8, 4];
    let trace = Trace::from(accesses.clone());

    let mut a = Cache::<Lru, (HitCount, MissCount)>::new(3);
    let mut b = Cache::<Lru, (HitCount, MissCount)>::new(3);
    a.run_trace(&trace);
    b.run_trace(&trace);
    assert_eq!(a.set().ids(), b.set().ids());
    assert_eq!((a.stat().0 .0, a.stat().1 .0), (b.stat().0 .0, b.stat().1 .0));

    let mut a = Cache::<Fifo, HitCount>::new(3);
    let mut b = Cache::<Fifo, HitCount>::new(3);
    a.run_trace(&trace);
    b.run_trace(&trace);
    assert_eq!(a.set().ids(), b.set().ids());
    assert_eq!(a.stat().0, b.stat().0);

    let mut a = Cache::<Lfu, MissCount>::new(3);
    let mut b = Cache::<Lfu, MissCount>::new(3);
    a.run_trace(&trace);
    b.run_trace(&trace);
    assert_eq!(a.set().ids(), b.set().ids());
    assert_eq!(a.stat().0, b.stat().0);

    let mut a = Cache::<Opt, MissCount>::with_replacement_policy(Opt::new(&trace), 3);
    let mut b = Cache::<Opt, MissCount>::with_replacement_policy(Opt::new(&trace), 3);
    a.run_trace(&trace);
    b.run_trace(&trace);
    assert_eq!(a.set().ids(), b.set().ids());
    assert_eq!(a.stat().0, b.stat().0);
}

#[test]
fn cache_pretty_print() {
    let mut c = Cache::<Lru>::new(1);
    c.access(0);
    c.access(1);
    assert_eq!(&c.pretty_print(), "B");

    let mut c = Cache::<Lru>::new(2);
    c.access(0);
    c.access(1);
    c.access(2);
    // in the order of admission
    assert_eq!(&c.pretty_print(), "B, C");

    let mut c = Cache::<Lru>::new(2);
    c.access(25);
    c.access(26);
    c.access(0);
    assert_eq!(&c.pretty_print(), "26, 0");
    assert_eq!(&Cache::<Lru>::new(2).pretty_print(), "");
}

#[test]
fn cache_prints_ids_with_commas() {
    let mut c = Cache::<Lru>::new(3);
    assert_eq!(c.to_string(), "");
    c.access(10);
    assert_eq!(c.to_string(), "10");
    c.access(0);
    c.access(300);
    assert_eq!(c.to_string(), "10, 0, 300");
}

#[test]
fn rand_repeats_with_the_same_seed() {
    let accesses: Vec<u32> = (0..200u32).map(|i| (i * 7 + i / 3) % 11).collect();
    let run = |seed: u64| {
        let mut c = Cache::<Rand, MissCount>::with_replacement_policy(Rand::with_seed(seed), 4);
        for &a in &accesses {
            c.access(a);
            assert!(c.set().len() <= 4);
        }
        (c.set().ids(), c.stat().0)
    };
    assert_eq!(run(42), run(42));
    assert_eq!(run(7), run(7));
}

/// The ids that were evicted, in the order of the evictions.
#[derive(Default)]
struct Evictions(Vec<u64>);

impl Observer<u32> for Evictions {
    fn observe(&mut self, _: &ItemSet<u32>, _: u32, evicted: &ItemSet<u32>) {
        self.0.extend(evicted.ids());
    }
}

#[test]
fn observers_see_every_access() {
    let mut c = Cache::<Lru, (HitCount, Observed<Evictions>)>::new(2);
    for a in [0u32, 1, 2, 1, 3, 0] {
        c.access(a);
    }
    assert_eq!(c.stat().0 .0, 1);
    assert_eq!(c.stat().1 .0 .0, vec![0, 2, 1]);
}

#[test]
fn fifo_replays_items_of_different_sizes() {
    let big = GeneralModelItem::new(0, 0, 2);
    let small = GeneralModelItem::new(1, 0, 1);
    let other = GeneralModelItem::new(2, 0, 1);
    let mut c = Cache::<Fifo<GeneralModelItem>, MissCount, GeneralModelItem>::new(3);
    // the first item is the largest, so that its eviction makes room for any
    c.run_trace(&Trace::from(vec![big, small, other, small, big]));
    assert_eq!(sorted_ids(c.set()), vec![0, 2]);
    assert_eq!(c.stat().0, 4);
}

#[test]
fn replay_leaves_the_last_item_resident() {
    let accesses: Vec<u32> = vec![4, 8, 4, 1, 9, 9, 3, 8];
    let trace = Trace::from(accesses.clone());
    let mut c = Cache::<Rand, MissCount>::with_replacement_policy(Rand::with_seed(3), 2);
    c.access(100);
    c.run_trace(&trace);
    assert!(c.set().contains(&8));
    for id in c.set().ids() {
        assert!(id == 100 || accesses.contains(&(id as u32)));
    }
    let mut empty = Cache::<Rand, MissCount>::new(2);
    empty.run_trace(&Trace::default());
    assert!(empty.set().is_empty());
    assert_eq!(empty.stat().0, 0);
}

#[test]
fn statistics_compose_up_to_twelve() {
    type Four = (HitCount, MissCount, HitCount, MissCount);
    type Twelve = (
        HitCount, MissCount, HitCount, MissCount, HitCount, MissCount,
        HitCount, MissCount, HitCount, MissCount, HitCount, MissCount,
    );
    let mut four = Cache::<Lru, Four>::new(3);
    let mut twelve = Cache::<Lru, Twelve>::new(3);
    for a in [0u32, 1, 2, 0, 3, 0] {
        four.access(a);
        twelve.access(a);
    }
    assert_eq!((four.stat().0 .0, four.stat().3 .0), (2, 4));
    assert_eq!((twelve.stat().10 .0, twelve.stat().11 .0), (2, 4));
    assert_eq!((twelve.stat().4 .0, twelve.stat().5 .0), (2, 4));
}
