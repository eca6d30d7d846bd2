use cache_sim::condition::{AnyCondition, Condition, ConstantStride, Recorded};
use cache_sim::contexts::{context_counts, group_keys, runs, same_key};
use cache_sim::item_set::ItemSet;
use cache_sim::trace::{
    distance_from, linear_function_continuation, stride, trace_strides,
};
use cache_sim::{GeneralModelGenerator, GeneralModelItem, LastNItems, NoCondition, Trace};
use std::collections::HashMap;

fn distances(accesses: Vec<u32>) -> Vec<Option<u32>> {
    Trace::from(accesses).stack_distances(true).into_inner()
}

#[test]
fn stack_distance_basic() {
    assert_eq!(distances(vec![1, 2, 3]), vec![None, None, None]);
}

#[test]
fn stack_distance_repeated() {
    assert_eq!(distances(vec![1, 1, 1]), vec![None, Some(0), Some(0)]);
}

#[test]
fn stack_distance_one_two() {
    assert_eq!(distances(vec![1, 2, 1, 1, 1]), vec![None, None, Some(1), Some(0), Some(0)]);
}

#[test]
fn stack_distance_one_repeated() {
    assert_eq!(distances(vec![1, 2, 3, 1]), vec![None, None, None, Some(2)]);
}

#[test]
fn stack_distance_example() {
    let expected = vec![None, Some(0), None, Some(1), None, Some(1), Some(2)];
    assert_eq!(distances(vec![0, 0, 1, 0, 3, 0, 1]), expected);
    let trace = Trace::from(vec![0u32, 0, 1, 0, 3, 0, 1]);
    // with unit sizes both models agree
    assert_eq!(trace.stack_distances(false).inner(), expected.as_slice());
    assert_eq!(trace.stack_distances(true).inner(), expected.as_slice());
}

#[test]
fn stack_distance_empty() {
    assert_eq!(distances(vec![]), vec![]);
    let (freqs, infinities) = Trace::<u32>::from(vec![]).stack_distances(true).histogram();
    assert_eq!(freqs, Vec::<usize>::new());
    assert_eq!(infinities, 0);
}

#[test]
fn with_sizes() {
    let mut g = GeneralModelGenerator::new();

    let a = g.item(1.0f64.to_bits(), 2);
    let b = g.item(1.0f64.to_bits(), 4);
    let c = g.item(1.0f64.to_bits(), 3);

    let trace = Trace::from(vec![a, b, c, a]);
    assert_eq!(trace.stack_distances(false).inner(), vec![None, None, None, Some(7)]);
    // the paging model counts the items
    assert_eq!(trace.stack_distances(true).inner(), vec![None, None, None, Some(2)]);
}

#[test]
fn sized_distance_is_the_sum_of_the_sizes() {
    let first = GeneralModelItem::new(0, 0, 1);
    let big = GeneralModelItem::new(1, 0, 1_000_000_000);
    let huge = GeneralModelItem::new(2, 0, 4_000_000_000);
    let small = GeneralModelItem::new(3, 0, 5);
    let medium = GeneralModelItem::new(4, 0, 600_000_000);

    let trace = Trace::from(vec![first, big, small, first]);
    assert_eq!(trace.stack_distances(false).into_inner()[3], Some(1_000_000_005));
    // the paging model counts the items
    assert_eq!(trace.stack_distances(true).into_inner()[3], Some(2));

    let trace = Trace::from(vec![first, medium, big, small, first]);
    assert_eq!(trace.stack_distances(false).into_inner()[4], Some(1_600_000_005));

    // a sum that a `u32` cannot hold is `u32::MAX`
    let trace = Trace::from(vec![first, big, small, huge, first]);
    assert_eq!(trace.stack_distances(false).into_inner()[4], Some(u32::MAX));
    let most = GeneralModelItem::new(5, 0, u32::MAX - 5);
    let trace = Trace::from(vec![first, most, small, first, small, most]);
    let distances = trace.stack_distances(false).into_inner();
    assert_eq!(distances[3], Some(u32::MAX));
    assert_eq!(distances[4], Some(1));
    assert_eq!(distances[5], Some(6));
}

#[test]
fn distance_from_reads_the_stack() {
    let mut stack = ItemSet::<GeneralModelItem>::new();
    for (id, size) in [(0u64, 2u32), (1, 4), (2, 3)] {
        stack.insert(GeneralModelItem::new(id, 0, size));
    }
    let probe = GeneralModelItem::new(0, 0, 9);
    assert_eq!(distance_from(&stack, probe, false), Some(7));
    assert_eq!(distance_from(&stack, probe, true), Some(2));
    assert_eq!(distance_from(&stack, GeneralModelItem::new(2, 0, 1), false), Some(0));
    assert_eq!(distance_from(&stack, GeneralModelItem::new(5, 0, 1), false), None);
}

fn histogram(accesses: Vec<u32>) -> (Vec<usize>, usize) {
    Trace::from(accesses).stack_distances(true).histogram()
}

#[test]
fn stack_distance_histogram_basic() {
    assert_eq!(histogram(vec![1, 2, 3]), (vec![], 3));
}

#[test]
fn stack_distance_histogram_repeated() {
    assert_eq!(histogram(vec![1, 1, 1]), (vec![2], 1));
}

#[test]
fn stack_distance_histogram_one_two() {
    assert_eq!(histogram(vec![1, 2, 1, 1, 1]), (vec![2, 1], 2));
}

#[test]
fn stack_distance_histogram_one_repeated() {
    assert_eq!(histogram(vec![1, 2, 3, 1]), (vec![0, 0, 1], 3));
}

#[test]
fn stack_distance_histogram_example() {
    assert_eq!(histogram(vec![0, 0, 1, 0, 3, 0, 1]), (vec![1, 2, 1], 3));
}

fn frequencies(accesses: Vec<u32>) -> HashMap<u64, u32> {
    Trace::from(accesses).frequency_histogram(&NoCondition)
}

#[test]
fn frequency_basic() {
    assert_eq!(frequencies(vec![1, 2, 3]), HashMap::from([(1, 1), (2, 1), (3, 1)]));
}

#[test]
fn frequency_repeated() {
    assert_eq!(frequencies(vec![1, 1, 1]), HashMap::from([(1, 3)]));
}

#[test]
fn frequency_one_two() {
    assert_eq!(frequencies(vec![1, 2, 1, 1, 1]), HashMap::from([(1, 4), (2, 1)]));
}

#[test]
fn frequency_one_repeated() {
    assert_eq!(frequencies(vec![1, 2, 3, 1]), HashMap::from([(1, 2), (2, 1), (3, 1)]));
}

#[test]
fn frequency_example() {
    let f = frequencies(vec![0, 0, 1, 0, 3, 1]);
    assert_eq!(f.get(&0), Some(&3));
    assert_eq!(f.get(&1), Some(&2));
    assert_eq!(f.get(&2), None);
    assert_eq!(frequencies(vec![]), HashMap::new());
}

#[test]
fn frequency_counts_feed_entropy() {
    // the distributions whose entropies are 0, 1, 1.75 and 1.37878
    assert_eq!(frequencies(vec![0, 0, 0, 0]), HashMap::from([(0, 4)]));
    assert_eq!(frequencies(vec![0, 1, 1, 0, 1, 0]), HashMap::from([(0, 3), (1, 3)]));
    assert_eq!(
        frequencies(vec![0, 1, 2, 0, 2, 0, 0, 3]),
        HashMap::from([(0, 4), (1, 1), (2, 2), (3, 1)])
    );
    assert_eq!(frequencies(vec![0, 1, 2, 0, 2, 0, 0]), HashMap::from([(0, 4), (1, 1), (2, 2)]));
}

#[test]
fn frequency_under_a_condition() {
    let trace = Trace::from(vec![1u32, 2, 1, 3, 1, 2, 1, 2]);
    let after_one = LastNItems::new(vec![1u32]);
    assert_eq!(trace.frequency_histogram(&after_one), HashMap::from([(2, 3), (3, 1)]));
    let after_one_two = LastNItems::new(vec![1u32, 2]);
    assert_eq!(trace.frequency_histogram(&after_one_two), HashMap::from([(1, 2)]));
    let never = LastNItems::new(vec![9u32]);
    assert_eq!(trace.frequency_histogram(&never), HashMap::new());
}

#[test]
fn stride_histogram_example() {
    let trace = Trace::from(vec![0u32, 0, 4, 3, 2, 2, 0]);
    assert_eq!(trace.strides(), &[0, 4, -1, -1, 0, -2]);
    let strides = trace.stride_histogram(&NoCondition);
    assert_eq!(strides.get(&0), Some(&2));
    assert_eq!(strides.get(&-1), Some(&2));
    assert_eq!(strides.get(&3), None);
    assert_eq!(strides, HashMap::from([(0, 2), (4, 1), (-1, 2), (-2, 1)]));
}

#[test]
fn stride_histogram_of_runs() {
    let trace = Trace::from(vec![0u32, 1, 2, 3, 5, 7, 9, 9]);
    // strides: 1 1 1 2 2 2 0
    let continues = ConstantStride { prefix: 1, cont: 1 };
    assert_eq!(trace.stride_histogram(&continues), HashMap::from([(1, 2), (2, 2)]));
    assert_eq!(trace.count_strides(&continues), 4);
    let longer = ConstantStride { prefix: 2, cont: 1 };
    assert_eq!(trace.stride_histogram(&longer), HashMap::from([(1, 1), (2, 1)]));
    let before = ConstantStride { prefix: 2, cont: 0 };
    // the two strides before the index are the same: indices 2, 3, 5, 6
    assert_eq!(trace.stride_histogram(&before), HashMap::from([(1, 1), (2, 2), (0, 1)]));
    assert_eq!(trace.count_strides(&NoCondition), 7);
}

#[test]
fn histograms_in_one_batch() {
    let trace = Trace::from(vec![0u32, 0, 4, 3, 2, 2, 0]);
    let conditions = vec![(NoCondition, false), (NoCondition, true)];
    let (items, strides) = trace.frequency_histogram_many(&conditions);
    assert_eq!(items.len(), 2);
    assert_eq!(strides.len(), 2);
    assert_eq!(items[0], trace.frequency_histogram(&NoCondition));
    assert_eq!(items[0].get(&0), Some(&3));
    assert_eq!(items[1], HashMap::new());
    assert_eq!(strides[0], HashMap::new());
    assert_eq!(strides[1], trace.stride_histogram(&NoCondition));
    assert_eq!(strides[1].get(&0), Some(&2));

    let conditions = vec![
        (LastNItems::new(vec![0u32]), false),
        (LastNItems::new(vec![2u32]), true),
        (LastNItems::new(vec![0u32, 4]), false),
    ];
    let (items, strides) = trace.frequency_histogram_many(&conditions);
    assert_eq!(items[0], HashMap::from([(0, 1), (4, 1)]));
    assert_eq!(items[2], HashMap::from([(3, 1)]));
    // after an access to 2: the strides at the indices 5 and 6; the trace has no stride at 6
    assert_eq!(strides[1], HashMap::from([(-2, 1)]));
    let (items, strides) = trace.frequency_histogram_many::<NoCondition>(&vec![]);
    assert!(items.is_empty() && strides.is_empty());
}

#[test]
fn no_condition_counting_up() {
    assert!(NoCondition.check(&Trace::from(vec![1u32, 2, 3]), 0));
}

#[test]
fn no_condition_zeros() {
    assert!(NoCondition.check(&Trace::from(vec![0u32, 0, 0]), 2));
}

#[test]
fn no_condition_noise() {
    assert!(NoCondition.check(&Trace::from(vec![1u32, 0, 5, 3, 17]), 3));
}

#[test]
fn last_n_one_zero() {
    let condition = LastNItems::new(vec![0u32]);
    assert_eq!(condition.check(&Trace::from(vec![1, 0, 2]), 2), true);
}

#[test]
fn last_n_incrementing() {
    let condition = LastNItems::new(vec![1u32, 2]);
    assert_eq!(condition.check(&Trace::from(vec![0, 1, 2, 3]), 3), true);
}

#[test]
fn last_n_repeated() {
    let condition = LastNItems::new(vec![1u32]);
    assert_eq!(condition.check(&Trace::from(vec![1, 2, 1, 0]), 3), true);
}

#[test]
fn last_n_wrong_condition() {
    let condition = LastNItems::new(vec![3u32]);
    assert_eq!(condition.check(&Trace::from(vec![1, 2, 0, 1]), 2), false);
}

#[test]
fn last_n_needs_enough_items_before() {
    let condition = LastNItems::new(vec![1u32, 2]);
    let trace = Trace::from(vec![2u32, 1, 2, 1]);
    assert_eq!(condition.check(&trace, 0), false);
    assert_eq!(condition.check(&trace, 1), false);
    assert_eq!(condition.check(&trace, 2), false);
    assert_eq!(condition.check(&trace, 3), true);
    let empty = LastNItems::<u32>::default();
    assert_eq!(empty.check(&trace, 0), true);
}

#[test]
fn constant_stride_looks_both_ways() {
    let trace = Trace::from(vec![0u32, 2, 4, 6, 7]);
    // strides: 2 2 2 1
    let c = ConstantStride { prefix: 1, cont: 1 };
    assert_eq!(c.check(&trace, 0), false);
    assert_eq!(c.check(&trace, 1), true);
    assert_eq!(c.check(&trace, 2), true);
    assert_eq!(c.check(&trace, 3), false);
    // there is no stride at the index 4
    assert_eq!(c.check(&trace, 4), false);
    let ahead = ConstantStride { prefix: 0, cont: 3 };
    assert_eq!(ahead.check(&trace, 0), true);
    assert_eq!(ahead.check(&trace, 1), false);
    // too few strides from the index on
    assert_eq!(ahead.check(&trace, 2), false);
    let nothing = ConstantStride { prefix: 0, cont: 0 };
    assert_eq!(nothing.check(&trace, 3), true);
    assert_eq!(nothing.check(&trace, 4), false);
}

#[test]
fn strides_are_signed_differences() {
    assert_eq!(stride(3, 10), 7);
    assert_eq!(stride(10, 3), -7);
    assert_eq!(stride(5, 5), 0);
    assert_eq!(stride(0, i64::MAX as u64), i64::MAX);
    assert_eq!(stride(i64::MAX as u64, 0), -i64::MAX);
    // differences that do not fit wrap around
    assert_eq!(stride(0, 1u64 << 63), i64::MIN);
    assert_eq!(stride(1u64 << 63, 0), i64::MIN);
    assert_eq!(stride(0, u64::MAX), -1);
    assert_eq!(stride(u64::MAX, 0), 1);
    assert_eq!(stride(1, u64::MAX), -2);
    assert_eq!(trace_strides(&vec![1u64, 4, 2, 2]), vec![3, -2, 0]);
    assert_eq!(trace_strides(&vec![9u64]), Vec::<i64>::new());
    assert_eq!(trace_strides::<u64>(&vec![]), Vec::<i64>::new());
}

#[test]
fn trace_reads_back() {
    let trace = Trace::from(vec![4u32, 2, 9]);
    assert_eq!(trace.len(), 3);
    assert!(!trace.is_empty());
    assert_eq!(trace.get(1), 2);
    assert_eq!(trace.inner(), &[4, 2, 9]);
    assert_eq!(trace.strides(), &[-2, 7]);
    assert_eq!(trace.into_inner(), vec![4, 2, 9]);
    let empty = Trace::<u32>::default();
    assert!(empty.is_empty());
    assert_eq!(empty.strides(), &[] as &[i64]);
}

#[test]
fn append_keeps_the_strides() {
    let mut trace = Trace::<u32>::default();
    trace.append(5);
    assert_eq!(trace.strides(), &[] as &[i64]);
    trace.append(2);
    trace.append(2);
    trace.append(10);
    assert_eq!(trace.inner(), &[5, 2, 2, 10]);
    assert_eq!(trace.strides(), &[-3, 0, 8]);
    assert_eq!(trace.strides(), Trace::from(vec![5u32, 2, 2, 10]).strides());
}

#[test]
fn contexts_count_what_follows() {
    // a b a b a c a b
    let trace = Trace::from(vec![0u32, 1, 0, 1, 0, 2, 0, 1]);
    let contexts = trace.item_contexts(1);
    // contexts in order of first occurrence: a, b, c
    assert_eq!(contexts.len(), 3);
    // a occurs 4 times with a follower: b, b, c, b
    assert_eq!(contexts[0].count, 4);
    assert_eq!(contexts[0].followers, vec![3, 1]);
    // b is followed by a twice
    assert_eq!(contexts[1].count, 2);
    assert_eq!(contexts[1].followers, vec![2]);
    assert_eq!(contexts[2].count, 1);
    assert_eq!(contexts[2].followers, vec![1]);

    let contexts = trace.item_contexts(2);
    // ab, ba, ac, ca
    assert_eq!(contexts.len(), 4);
    assert_eq!(contexts[0].count, 2);
    assert_eq!(contexts[0].followers, vec![2]);
    assert_eq!(contexts[1].count, 2);
    assert_eq!(contexts[1].followers, vec![1, 1]);
    assert_eq!(contexts[3].followers, vec![1]);

    let contexts = trace.item_contexts(0);
    // the empty context comes before every access
    assert_eq!(contexts.len(), 1);
    assert_eq!(contexts[0].count, 8);
    assert_eq!(contexts[0].followers, vec![4, 3, 1]);

    assert!(trace.item_contexts(8).is_empty());
    assert!(trace.item_contexts(20).is_empty());
    assert_eq!(trace.item_contexts(7).len(), 1);
}

#[test]
fn stride_contexts_count_what_follows() {
    let trace = Trace::from(vec![0u32, 1, 2, 3, 5, 6, 7]);
    // strides: 1 1 1 2 1 1
    let contexts = trace.stride_contexts(1);
    // after 1: 1, 1, 2, 1; after 2: 1
    assert_eq!(contexts.len(), 2);
    assert_eq!(contexts[0].count, 4);
    assert_eq!(contexts[0].followers, vec![3, 1]);
    assert_eq!(contexts[1].count, 1);
    assert_eq!(contexts[1].followers, vec![1]);
    assert!(Trace::<u32>::default().stride_contexts(0).is_empty());
}

#[test]
fn unique_runs_are_counted() {
    let trace = Trace::from(vec![0u32, 1, 0, 1, 0, 2, 0, 1]);
    // runs of one item with an item after them: a, b, c
    assert_eq!(trace.num_items(1), 3);
    assert_eq!(trace.num_items(2), 4);
    assert_eq!(trace.num_items(0), 1);
    assert_eq!(trace.num_items(8), 0);
    assert_eq!(trace.num_items(9), 0);
    // the last item has nothing after it, so it does not count by itself
    assert_eq!(Trace::from(vec![1u32, 1, 2]).num_items(1), 1);
    // strides: 1 -1 1 -1 2 -2 1
    assert_eq!(trace.num_strides(1), 4);
    assert_eq!(trace.num_strides(2), 4);
    assert_eq!(trace.num_strides(7), 0);
}

#[test]
fn keys_are_grouped_in_order() {
    let keys = vec![vec![1i128, 2], vec![3], vec![1, 2], vec![], vec![3], vec![1, 2]];
    let groups = group_keys(&keys);
    assert_eq!(groups.counts, vec![3, 2, 1]);
    assert_eq!(groups.group_of, vec![0, 1, 0, 2, 1, 0]);
    assert!(same_key(&vec![1, 2], &vec![1, 2]));
    assert!(!same_key(&vec![1, 2], &vec![1, 3]));
    assert!(!same_key(&vec![1, 2], &vec![1]));
    assert_eq!(runs(&vec![7, 8, 9], 2), vec![vec![7, 8]]);
    assert_eq!(runs(&vec![7, 8, 9], 0), vec![vec![], vec![], vec![]]);
    assert_eq!(runs(&vec![7, 8, 9], 3), Vec::<Vec<i128>>::new());
    let counts = context_counts(&vec![-1, -1, 5, -1, -1], 1);
    assert_eq!(counts.len(), 2);
    assert_eq!(counts[0].followers, vec![2, 1]);
}

#[test]
fn continuation_ends_with_the_first_zero() {
    // strides: 1 1 1 1 3 3
    let trace = Trace::from(vec![0u32, 1, 2, 3, 4, 7, 10]);
    // one stride before: 1 1 1 and 3 continue; two before: 1 1; three: 1; four: none
    assert_eq!(linear_function_continuation(&trace), vec![4, 2, 1, 0]);
    assert_eq!(linear_function_continuation(&Trace::from(vec![1u32, 5, 2])), vec![0]);
    assert_eq!(linear_function_continuation(&Trace::<u32>::default()), vec![0]);
}

#[test]
fn pretty_print_uses_letters_for_small_items() {
    let trace = Trace::from(vec![0u32, 0, 2, 3, 1, 14]);
    assert_eq!(&trace.pretty_print(), "A, A, C, D, B, O");
    assert_eq!(&Trace::from(vec![25u32]).pretty_print(), "Z");
}

#[test]
fn pretty_print_uses_numbers_for_large_items() {
    let trace = Trace::from(vec![1u32, 2, 26]);
    assert_eq!(&trace.pretty_print(), "1, 2, 26");
    assert_eq!(&Trace::from(vec![0u32, 4294967295, 100]).pretty_print(), "0, 4294967295, 100");
    assert_eq!(&Trace::<u32>::default().pretty_print(), "");
}

#[test]
fn conditions_of_different_kinds_in_one_batch() {
    let trace = Trace::from(vec![0u32, 1, 2, 3, 5, 7, 9, 9]);
    // strides: 1 1 1 2 2 2 0
    let conditions = vec![
        (AnyCondition::All, false),
        (AnyCondition::LastN(LastNItems::new(vec![9u32])), false),
        (AnyCondition::Run(ConstantStride { prefix: 1, cont: 1 }), true),
        (AnyCondition::All, true),
    ];
    let (items, strides) = trace.frequency_histogram_many(&conditions);
    assert_eq!(items[0], trace.frequency_histogram(&NoCondition));
    assert_eq!(items[1], HashMap::from([(9, 1)]));
    assert_eq!(strides[2], HashMap::from([(1, 2), (2, 2)]));
    assert_eq!(strides[3], HashMap::from([(1, 3), (2, 3), (0, 1)]));
    assert!(AnyCondition::<u32>::All.check(&trace, 7));
    assert!(!AnyCondition::LastN(LastNItems::new(vec![9u32])).check(&trace, 6));
}

#[test]
fn trace_iterates_in_order() {
    let trace = Trace::from(vec![4u32, 2, 9]);
    assert_eq!(trace.iter().copied().collect::<Vec<u32>>(), vec![4, 2, 9]);
    assert_eq!(Trace::<u32>::default().iter().count(), 0);
}

#[test]
fn trace_prints_ids_with_spaces() {
    assert_eq!(Trace::from(vec![4u32, 20, 0]).to_string(), "4 20 0 ");
    assert_eq!(Trace::<u32>::default().to_string(), "");
    let items = vec![GeneralModelItem::new(18446744073709551615, 0, 3), GeneralModelItem::new(7, 0, 1)];
    assert_eq!(Trace::from(items).to_string(), "18446744073709551615 7 ");
}

#[test]
fn trace_is_indexed_by_position() {
    let trace = Trace::from(vec![4u32, 2, 9]);
    assert_eq!(trace[0], 4);
    assert_eq!(trace[2], 9);
    assert_eq!(trace.into_iter().collect::<Vec<u32>>(), vec![4, 2, 9]);
}

#[test]
fn closure_equals_zero() {
    let trace = Trace::from(vec![1u32, 2, 0]);
    let condition = Recorded::of(&trace, |t: &Trace<u32>, i| t[i] == 0);
    assert_eq!(condition.check(&trace, 2), true);
    assert_eq!(condition.check(&trace, 1), false);
}

#[test]
fn closure_after_one() {
    let trace = Trace::from(vec![1u32, 0, 1, 2]);
    let condition = Recorded::of(&trace, |t: &Trace<u32>, i| i > 0 && t[i - 1] == 1);
    assert_eq!(condition.check(&trace, 3), true);
}

#[test]
fn closure_one_greater() {
    let trace = Trace::from(vec![0u32, 2, 0, 1]);
    let condition = Recorded::of(&trace, |t: &Trace<u32>, i| i > 0 && t[i - 1] + 1 == t[i]);
    assert_eq!(condition.check(&trace, 3), true);
}

#[test]
fn closure_wrong_condition() {
    let trace = Trace::from(vec![0u32, 2, 0, 1]);
    let condition = Recorded::of(&trace, |t: &Trace<u32>, i| i > 0 && t[i - 1] + 1 == t[i]);
    assert_eq!(condition.check(&trace, 2), false);
}

#[test]
fn recorded_conditions_count() {
    let trace = Trace::from(vec![5u32, 6, 5, 7, 5]);
    let even_index = Recorded::new(vec![true, false, true, false, true]);
    assert_eq!(trace.frequency_histogram(&even_index), HashMap::from([(5, 3)]));
    // strides: 1 -1 2 -2
    assert_eq!(trace.stride_histogram(&even_index), HashMap::from([(1, 1), (2, 1)]));
    // beyond what was recorded the condition does not hold
    let short = Recorded::new(vec![true, true]);
    assert_eq!(trace.frequency_histogram(&short), HashMap::from([(5, 1), (6, 1)]));
    assert_eq!(short.check(&trace, 4), false);
    let streak = Recorded::of(&trace, |t: &Trace<u32>, i| {
        i > 0 && i < t.strides().len() && t.strides()[i] == -t.strides()[i - 1]
    });
    let (_, strides) = trace.frequency_histogram_many(&vec![(AnyCondition::Recorded(streak), true)]);
    assert_eq!(strides[0], HashMap::from([(-1, 1), (-2, 1)]));
}

#[test]
fn last_n_answers_at_the_end_of_the_trace() {
    let trace = Trace::from(vec![0u32, 1, 2, 3]);
    assert_eq!(LastNItems::new(vec![2u32, 3]).check(&trace, 4), true);
    assert_eq!(LastNItems::new(vec![1u32, 2]).check(&trace, 4), false);
    assert_eq!(LastNItems::<u32>::default().check(&trace, 4), true);
    assert!(NoCondition.check(&trace, 4));
    assert_eq!(ConstantStride { prefix: 1, cont: 0 }.check(&trace, 4), false);
    assert_eq!(ConstantStride { prefix: 2, cont: 0 }.check(&trace, 3), true);
}

#[test]
fn a_trace_gives_ranges_of_its_items() {
    let trace = Trace::from(vec![4u32, 8, 15, 16, 23, 42]);
    assert_eq!(trace.range(1, 4), &[8, 15, 16]);
    assert_eq!(trace.range(2, 2), &[] as &[u32]);
    assert_eq!(trace.range(0, 6), &[4, 8, 15, 16, 23, 42]);
    assert_eq!(&trace[4..6], &[23, 42]);
    assert_eq!(trace[0], 4);
}
