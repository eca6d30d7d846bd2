use cache_sim::stats::MissCount;
use cache_sim::{Cache, Fifo, GeneralModelItem, Lfu, Lru, Mru, NoCondition, Trace};
use std::collections::{HashMap, HashSet};

/// A small generator of numbers: a linear congruential sequence.
struct Numbers(u64);

impl Numbers {
    fn below(&mut self, bound: u64) -> u64 {
        self.0 = self.0.wrapping_mul(6364136223846793005).wrapping_add(1442695040888963407);
        (self.0 >> 33) % bound
    }

    fn accesses(&mut self, len: usize, alphabet: u64) -> Vec<u32> {
        (0..len).map(|_| self.below(alphabet) as u32).collect()
    }
}

fn sorted(mut ids: Vec<u64>) -> Vec<u64> {
    ids.sort();
    ids
}

/// What a cache of `capacity` items holds after `accesses`, where `victim`
/// picks the position of the item to evict in the recency order (oldest
/// first), the insertion order, and the access counts.
fn plain_cache(
    accesses: &[u32],
    capacity: usize,
    victim: impl Fn(&[u32], &[u32], &HashMap<u32, u32>, &HashSet<u32>) -> u32,
) -> (Vec<u64>, u32) {
    let mut set: HashSet<u32> = HashSet::new();
    let mut recency: Vec<u32> = Vec::new();
    let mut insertion: Vec<u32> = Vec::new();
    let mut counts: HashMap<u32, u32> = HashMap::new();
    let mut misses = 0;
    for &a in accesses {
        recency.retain(|&x| x != a);
        recency.push(a);
        if !insertion.contains(&a) {
            insertion.push(a);
        }
        *counts.entry(a).or_insert(0) += 1;
        if !set.contains(&a) {
            misses += 1;
            if set.len() == capacity {
                let gone = victim(&recency, &insertion, &counts, &set);
                assert!(set.remove(&gone));
                insertion.retain(|&x| x != gone);
            }
            set.insert(a);
        }
    }
    (sorted(set.into_iter().map(u64::from).collect()), misses)
}

#[test]
fn policies_agree_with_plain_simulations() {
    let mut numbers = Numbers(2024);
    for round in 0..60u64 {
        let capacity = 1 + (round % 5) as usize;
        let accesses = numbers.accesses(40 + (round as usize % 9) * 7, 3 + round % 8);
        let trace = Trace::from(accesses.clone());

        let mut lru = Cache::<Lru, MissCount>::new(capacity as u32);
        lru.run_trace(&trace);
        let expected = plain_cache(&accesses, capacity, |recency, _, _, set| {
            *recency.iter().find(|x| set.contains(x)).unwrap()
        });
        assert_eq!((sorted(lru.set().ids()), lru.stat().0), expected);

        let mut mru = Cache::<Mru, MissCount>::new(capacity as u32);
        mru.run_trace(&trace);
        let expected = plain_cache(&accesses, capacity, |recency, _, _, set| {
            *recency.iter().rev().find(|x| set.contains(x)).unwrap()
        });
        assert_eq!((sorted(mru.set().ids()), mru.stat().0), expected);

        let mut fifo = Cache::<Fifo, MissCount>::new(capacity as u32);
        fifo.run_trace(&trace);
        let expected = plain_cache(&accesses, capacity, |_, insertion, _, set| {
            *insertion.iter().find(|x| set.contains(x)).unwrap()
        });
        assert_eq!((sorted(fifo.set().ids()), fifo.stat().0), expected);

        let mut lfu = Cache::<Lfu, MissCount>::new(capacity as u32);
        lfu.run_trace(&trace);
        let expected = plain_cache(&accesses, capacity, |recency, _, counts, set| {
            let fewest = set.iter().map(|x| counts[x]).min().unwrap();
            *recency.iter().find(|x| set.contains(x) && counts[x] == fewest).unwrap()
        });
        assert_eq!((sorted(lfu.set().ids()), lfu.stat().0), expected);
    }
}

#[test]
fn sized_lru_agrees_with_a_plain_simulation() {
    let mut numbers = Numbers(7);
    for round in 0..40u64 {
        let capacity = 6 + (round % 7) as u32;
        let sizes: Vec<u32> = (0..8).map(|_| 1 + numbers.below(4) as u32).collect();
        let accesses: Vec<GeneralModelItem> = (0..60)
            .map(|_| {
                let id = numbers.below(8);
                GeneralModelItem::new(id, 0, sizes[id as usize])
            })
            .collect();
        let mut cache = Cache::<Lru<GeneralModelItem>, MissCount, GeneralModelItem>::new(capacity);
        let mut recency: Vec<u64> = Vec::new();
        let mut set: HashSet<u64> = HashSet::new();
        let mut misses = 0;
        for item in &accesses {
            cache.access(*item);
            let id = cache_sim::item::Item::id(item);
            recency.retain(|&x| x != id);
            recency.push(id);
            if !set.contains(&id) {
                misses += 1;
                let mut used: u32 = set.iter().map(|&x| sizes[x as usize]).sum();
                let mut oldest = 0;
                while used + sizes[id as usize] > capacity {
                    while !set.contains(&recency[oldest]) {
                        oldest += 1;
                    }
                    set.remove(&recency[oldest]);
                    used -= sizes[recency[oldest] as usize];
                }
                set.insert(id);
            }
            assert_eq!(sorted(cache.set().ids()), sorted(set.iter().copied().collect()));
            assert!(cache.set().total_size() <= u128::from(capacity));
        }
        assert_eq!(cache.stat().0, misses);
    }
}

#[test]
fn stack_distances_agree_with_counting_distinct_items() {
    let mut numbers = Numbers(99);
    for round in 0..40u64 {
        let accesses = numbers.accesses(50, 2 + round % 9);
        let distances = Trace::from(accesses.clone()).stack_distances(true).into_inner();
        for (i, &a) in accesses.iter().enumerate() {
            let expected = accesses[..i].iter().rposition(|&x| x == a).map(|last| {
                accesses[last + 1..i].iter().collect::<HashSet<_>>().len() as u32
            });
            assert_eq!(distances[i], expected);
        }
    }
}

#[test]
fn sized_stack_distances_agree_with_adding_up_sizes() {
    let mut numbers = Numbers(5);
    for _ in 0..40 {
        let sizes: Vec<u32> = (0..6).map(|_| numbers.below(50) as u32).collect();
        let accesses: Vec<GeneralModelItem> = (0..50)
            .map(|_| {
                let id = numbers.below(6);
                GeneralModelItem::new(id, 0, sizes[id as usize])
            })
            .collect();
        let ids: Vec<u64> = accesses.iter().map(cache_sim::item::Item::id).collect();
        let distances = Trace::from(accesses).stack_distances(false).into_inner();
        for (i, &a) in ids.iter().enumerate() {
            let expected = ids[..i].iter().rposition(|&x| x == a).map(|last| {
                ids[last + 1..i]
                    .iter()
                    .collect::<HashSet<_>>()
                    .into_iter()
                    .map(|&x| sizes[x as usize])
                    .sum::<u32>()
            });
            assert_eq!(distances[i], expected);
        }
    }
}

#[test]
fn histograms_agree_with_counting() {
    let mut numbers = Numbers(11);
    for round in 0..30u64 {
        let accesses = numbers.accesses(60, 2 + round % 6);
        let trace = Trace::from(accesses.clone());
        let mut items: HashMap<u64, u32> = HashMap::new();
        for &a in &accesses {
            *items.entry(u64::from(a)).or_insert(0) += 1;
        }
        assert_eq!(trace.frequency_histogram(&NoCondition), items);
        let mut strides: HashMap<i64, u32> = HashMap::new();
        for pair in accesses.windows(2) {
            *strides.entry(i64::from(pair[1]) - i64::from(pair[0])).or_insert(0) += 1;
        }
        assert_eq!(trace.stride_histogram(&NoCondition), strides);

        let distances = trace.stack_distances(true);
        let (freqs, infinities) = distances.histogram();
        assert_eq!(infinities, distances.inner().iter().filter(|d| d.is_none()).count());
        for (d, &count) in freqs.iter().enumerate() {
            let expected = distances.inner().iter().filter(|&&x| x == Some(d as u32)).count();
            assert_eq!(count, expected);
        }
        assert_eq!(freqs.iter().sum::<usize>() + infinities, accesses.len());
        assert!(freqs.last().map_or(true, |&last| last > 0));
    }
}

#[test]
fn contexts_agree_with_counting() {
    let mut numbers = Numbers(3);
    for round in 0..30u64 {
        let accesses = numbers.accesses(50, 2 + round % 4);
        let prefix = (round % 4) as usize;
        let trace = Trace::from(accesses.clone());
        let mut order: Vec<&[u32]> = Vec::new();
        let mut followers: HashMap<&[u32], Vec<(u32, usize)>> = HashMap::new();
        for i in prefix..accesses.len() {
            let context = &accesses[i - prefix..i];
            if !order.contains(&context) {
                order.push(context);
            }
            let counts = followers.entry(context).or_default();
            match counts.iter_mut().find(|(symbol, _)| *symbol == accesses[i]) {
                Some((_, count)) => *count += 1,
                None => counts.push((accesses[i], 1)),
            }
        }
        let contexts = trace.item_contexts(prefix);
        assert_eq!(contexts.len(), order.len());
        assert_eq!(trace.num_items(prefix), order.len());
        for (k, context) in order.iter().enumerate() {
            let expected: Vec<usize> = followers[context].iter().map(|&(_, c)| c).collect();
            assert_eq!(contexts[k].followers, expected);
            assert_eq!(contexts[k].count, expected.iter().sum::<usize>());
        }
    }
}

#[test]
fn stack_distances_tell_the_hits_of_lru() {
    let mut numbers = Numbers(17);
    for round in 0..30u64 {
        let accesses = numbers.accesses(80, 3 + round % 7);
        let trace = Trace::from(accesses.clone());
        let distances = trace.stack_distances(true).into_inner();
        for capacity in 1..6u32 {
            let mut lru = Cache::<Lru, MissCount>::new(capacity);
            lru.run_trace(&trace);
            // an access hits exactly if fewer items than the cache holds were
            // accessed since the last access to its item
            let misses = distances.iter().filter(|d| d.map_or(true, |d| d >= capacity)).count();
            assert_eq!(lru.stat().0 as usize, misses);
        }
    }
}
