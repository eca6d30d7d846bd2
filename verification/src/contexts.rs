//! Conditional distributions: what follows each context of a trace.
//!
//! A context is a run of `prefix` consecutive symbols, where the symbols are
//! the ids of the items or the strides between them. For each context that
//! occurs, the functions of this module count how often it occurs and how
//! often each symbol follows it. The conditional entropy of a trace is a
//! weighted sum over these counts.

use crate::item::Item;
use crate::trace::{occurrences, strides_of, Trace};
use vstd::prelude::*;

verus! {

/// The keys of `keys`, each once, in the order of their first occurrence.
pub open spec fn distinct_keys(keys: Seq<Seq<i128>>) -> Seq<Seq<i128>>
    decreases keys.len(),
{
    if keys.len() == 0 {
        Seq::empty()
    } else if distinct_keys(keys.drop_last()).contains(keys.last()) {
        distinct_keys(keys.drop_last())
    } else {
        distinct_keys(keys.drop_last()).push(keys.last())
    }
}

/// The views of a vector of keys.
pub open spec fn key_views(keys: Seq<Vec<i128>>) -> Seq<Seq<i128>> {
    Seq::new(keys.len(), |i: int| keys[i]@)
}

/// What `distinct_keys` holds: every key, and none twice.
pub proof fn lemma_distinct_keys(keys: Seq<Seq<i128>>)
    ensures
        forall|i: int| 0 <= i < keys.len() ==> distinct_keys(keys).contains(#[trigger] keys[i]),
        forall|k: int|
            0 <= k < distinct_keys(keys).len() ==> keys.contains(#[trigger] distinct_keys(keys)[k]),
        forall|a: int, b: int|
            0 <= a < b < distinct_keys(keys).len() ==> #[trigger] distinct_keys(keys)[a]
                != #[trigger] distinct_keys(keys)[b],
    decreases keys.len(),
{
    let d = distinct_keys(keys);
    if keys.len() > 0 {
        let init = keys.drop_last();
        let di = distinct_keys(init);
        lemma_distinct_keys(init);
        assert forall|i: int| 0 <= i < keys.len() implies d.contains(#[trigger] keys[i]) by {
            if i < init.len() {
                assert(init[i] == keys[i]);
                let k = choose|k: int| 0 <= k < di.len() && di[k] == init[i];
                assert(d[k] == keys[i]);
            } else if di.contains(keys.last()) {
            } else {
                assert(d[d.len() - 1] == keys[i]);
            }
        }
        assert forall|k: int| 0 <= k < d.len() implies keys.contains(#[trigger] d[k]) by {
            if k < di.len() {
                assert(d[k] == di[k]);
                let i = choose|i: int| 0 <= i < init.len() && init[i] == di[k];
                assert(keys[i] == d[k]);
            } else {
                assert(keys[keys.len() - 1] == d[k]);
            }
        }
        assert forall|a: int, b: int| 0 <= a < b < d.len() implies #[trigger] d[a] != #[trigger] d[b] by {
            if b < di.len() {
                assert(d[a] == di[a] && d[b] == di[b]);
            } else {
                assert(d[a] == di[a]);
            }
        }
    }
}

/// Whether two keys are the same.
pub fn same_key(a: &Vec<i128>, b: &Vec<i128>) -> (same: bool)
    ensures
        same == (a@ == b@),
{
    if a.len() != b.len() {
        return false;
    }
    let mut i: usize = 0;
    while i < a.len()
        invariant
            a@.len() == b@.len(),
            i <= a@.len(),
            forall|k: int| 0 <= k < i ==> a@[k] == b@[k],
        decreases a@.len() - i,
    {
        if a[i] != b[i] {
            return false;
        }
        i += 1;
    }
    proof {
        assert(a@ =~= b@);
    }
    true
}

/// The groups of equal keys.
pub struct Groups {
    /// For each group, in the order of first occurrence, how many keys it has.
    pub counts: Vec<usize>,
    /// For each key, the index of its group.
    pub group_of: Vec<usize>,
}

/// Group equal keys. The groups are numbered in the order in which their keys
/// first occur.
pub fn group_keys(keys: &Vec<Vec<i128>>) -> (groups: Groups)
    ensures
        groups.counts@.len() == distinct_keys(key_views(keys@)).len(),
        forall|g: int|
            0 <= g < groups.counts@.len() ==> (#[trigger] groups.counts@[g]) == occurrences(
                key_views(keys@),
                distinct_keys(key_views(keys@))[g],
            ),
        groups.group_of@.len() == keys@.len(),
        forall|i: int|
            0 <= i < keys@.len() ==> 0 <= (#[trigger] groups.group_of@[i]) < groups.counts@.len()
                && distinct_keys(key_views(keys@))[groups.group_of@[i] as int] == keys@[i]@,
{
    let ghost all = key_views(keys@);
    let mut firsts: Vec<usize> = Vec::new();
    let mut counts: Vec<usize> = Vec::new();
    let mut group_of: Vec<usize> = Vec::new();
    let mut i: usize = 0;
    proof {
        assert(all.take(0) =~= Seq::<Seq<i128>>::empty());
    }
    while i < keys.len()
        invariant
            all == key_views(keys@),
            i <= keys@.len(),
            firsts@.len() == distinct_keys(all.take(i as int)).len(),
            counts@.len() == firsts@.len(),
            group_of@.len() == i,
            forall|g: int|
                0 <= g < firsts@.len() ==> (#[trigger] firsts@[g]) < i && all[firsts@[g] as int]
                    == distinct_keys(all.take(i as int))[g],
            forall|g: int|
                0 <= g < counts@.len() ==> (#[trigger] counts@[g]) == occurrences(
                    all.take(i as int),
                    distinct_keys(all.take(i as int))[g],
                ),
            forall|j: int|
                0 <= j < i ==> 0 <= (#[trigger] group_of@[j]) < firsts@.len() && distinct_keys(
                    all.take(i as int),
                )[group_of@[j] as int] == all[j],
        decreases keys@.len() - i,
    {
        let ghost before = all.take(i as int);
        let ghost known = distinct_keys(before);
        let ghost key = all[i as int];
        proof {
            assert(all.take(i + 1).drop_last() =~= before);
            assert(all.take(i + 1).last() == key);
            lemma_distinct_keys(before);
        }
        // look for the group of this key
        let mut g: usize = 0;
        let mut found: bool = false;
        while g < firsts.len() && !found
            invariant
                all == key_views(keys@),
                i < keys@.len(),
                key == all[i as int],
                known.len() == firsts@.len(),
                g <= firsts@.len(),
                forall|h: int|
                    0 <= h < firsts@.len() ==> (#[trigger] firsts@[h]) < i && all[firsts@[h] as int]
                        == known[h],
                found ==> g < firsts@.len() && known[g as int] == key,
                !found ==> forall|h: int| 0 <= h < g ==> #[trigger] known[h] != key,
            decreases firsts@.len() - g + if found { 0int } else { 1int },
        {
            if same_key(&keys[firsts[g]], &keys[i]) {
                found = true;
            } else {
                g += 1;
            }
        }
        if found {
            proof {
                assert(known.contains(key));
                crate::trace::lemma_occurrences_bound(before, key);
            }
            let count = counts[g];
            counts.set(g, count + 1);
            group_of.push(g);
        } else {
            proof {
                assert(!known.contains(key));
                lemma_not_counted(before, key);
            }
            firsts.push(i);
            counts.push(1);
            group_of.push(firsts.len() - 1);
        }
        i += 1;
    }
    proof {
        assert(all.take(keys@.len() as int) =~= all);
    }
    Groups { counts, group_of }
}

/// A key that is not among the distinct keys does not occur.
pub proof fn lemma_not_counted(keys: Seq<Seq<i128>>, key: Seq<i128>)
    requires
        !distinct_keys(keys).contains(key),
    ensures
        occurrences(keys, key) == 0,
    decreases keys.len(),
{
    if keys.len() > 0 {
        lemma_distinct_keys(keys);
        lemma_distinct_keys(keys.drop_last());
        assert(keys[keys.len() - 1] == keys.last());
        if distinct_keys(keys.drop_last()).contains(key) {
            let k = choose|k: int|
                0 <= k < distinct_keys(keys.drop_last()).len() && distinct_keys(
                    keys.drop_last(),
                )[k] == key;
            assert(distinct_keys(keys)[k] == key);
        }
        lemma_not_counted(keys.drop_last(), key);
    }
}

/// The runs of `prefix` symbols that are followed by a symbol, in the order in
/// which they end.
pub open spec fn contexts_of(symbols: Seq<i128>, prefix: int) -> Seq<Seq<i128>> {
    Seq::new(
        if symbols.len() > prefix {
            (symbols.len() - prefix) as nat
        } else {
            0
        },
        |i: int| symbols.subrange(i, i + prefix),
    )
}

/// The symbols that follow the occurrences of `context`, each as a key of its
/// own, in the order of the occurrences. `contexts[i]` is followed by
/// `symbols[prefix + i]`.
pub open spec fn followers_of(
    contexts: Seq<Seq<i128>>,
    symbols: Seq<i128>,
    prefix: int,
    context: Seq<i128>,
) -> Seq<Seq<i128>>
    decreases contexts.len(),
{
    if contexts.len() == 0 {
        Seq::empty()
    } else if contexts.last() == context {
        followers_of(contexts.drop_last(), symbols, prefix, context).push(
            seq![symbols[prefix + contexts.len() - 1]],
        )
    } else {
        followers_of(contexts.drop_last(), symbols, prefix, context)
    }
}

/// What was counted for one context.
pub struct ContextCounts {
    /// How often the context occurs with a symbol after it.
    pub count: usize,
    /// For each symbol that follows the context, in the order in which these
    /// symbols first follow it, how often it does.
    pub followers: Vec<usize>,
}

/// Whether `counts` is what is to be counted for the `k`th distinct context of
/// `symbols`.
pub open spec fn counts_context(
    counts: ContextCounts,
    symbols: Seq<i128>,
    prefix: int,
    k: int,
) -> bool {
    let contexts = contexts_of(symbols, prefix);
    let context = distinct_keys(contexts)[k];
    let followers = followers_of(contexts, symbols, prefix, context);
    &&& counts.count == occurrences(contexts, context)
    &&& counts.followers@.len() == distinct_keys(followers).len()
    &&& forall|j: int|
        0 <= j < counts.followers@.len() ==> (#[trigger] counts.followers@[j]) == occurrences(
            followers,
            distinct_keys(followers)[j],
        )
}

/// The runs of `prefix` symbols that are followed by a symbol, in the order in
/// which they end.
pub fn runs(symbols: &Vec<i128>, prefix: usize) -> (keys: Vec<Vec<i128>>)
    ensures
        key_views(keys@) == contexts_of(symbols@, prefix as int),
        keys@.len() == contexts_of(symbols@, prefix as int).len(),
{
    let ghost contexts = contexts_of(symbols@, prefix as int);
    let mut keys: Vec<Vec<i128>> = Vec::new();
    let len = symbols.len();
    let n = if len > prefix {
        len - prefix
    } else {
        0
    };
    let mut i: usize = 0;
    while i < n
        invariant
            len == symbols@.len(),
            n == contexts.len(),
            n > 0 ==> n == symbols@.len() - prefix,
            i <= n,
            keys@.len() == i,
            forall|j: int|
                0 <= j < i ==> (#[trigger] keys@[j])@ == symbols@.subrange(j, j + prefix),
        decreases n - i,
    {
        let mut key: Vec<i128> = Vec::new();
        let mut k: usize = 0;
        while k < prefix
            invariant
                len == symbols@.len(),
                i < symbols@.len() - prefix,
                k <= prefix,
                key@ == symbols@.subrange(i as int, i + k),
            decreases prefix - k,
        {
            key.push(symbols[i + k]);
            proof {
                assert(key@ =~= symbols@.subrange(i as int, i + k + 1));
            }
            k += 1;
        }
        keys.push(key);
        i += 1;
    }
    proof {
        assert(key_views(keys@) =~= contexts);
    }
    keys
}

/// For each run of `prefix` symbols that occurs in `symbols` with a symbol
/// after it, in the order in which these runs first occur: how often it
/// occurs, and how often each symbol follows it.
pub fn context_counts(symbols: &Vec<i128>, prefix: usize) -> (counts: Vec<ContextCounts>)
    ensures
        counts@.len() == distinct_keys(contexts_of(symbols@, prefix as int)).len(),
        forall|k: int|
            0 <= k < counts@.len() ==> counts_context(
                #[trigger] counts@[k],
                symbols@,
                prefix as int,
                k,
            ),
{
    let ghost contexts = contexts_of(symbols@, prefix as int);
    let keys = runs(symbols, prefix);
    let groups = group_keys(&keys);
    let len = symbols.len();
    let mut counts: Vec<ContextCounts> = Vec::new();
    let mut k: usize = 0;
    while k < groups.counts.len()
        invariant
            len == symbols@.len(),
            contexts == contexts_of(symbols@, prefix as int),
            key_views(keys@) == contexts,
            keys@.len() == contexts.len(),
            k <= groups.counts@.len(),
            counts@.len() == k,
            groups.counts@.len() == distinct_keys(contexts).len(),
            groups.group_of@.len() == keys@.len(),
            forall|g: int|
                0 <= g < groups.counts@.len() ==> (#[trigger] groups.counts@[g]) == occurrences(
                    contexts,
                    distinct_keys(contexts)[g],
                ),
            forall|i: int|
                0 <= i < keys@.len() ==> 0 <= (#[trigger] groups.group_of@[i])
                    < groups.counts@.len() && distinct_keys(contexts)[groups.group_of@[i] as int]
                    == keys@[i]@,
            forall|g: int|
                0 <= g < k ==> counts_context(#[trigger] counts@[g], symbols@, prefix as int, g),
        decreases groups.counts@.len() - k,
    {
        let ghost context = distinct_keys(contexts)[k as int];
        let mut followers: Vec<Vec<i128>> = Vec::new();
        let mut i: usize = 0;
        proof {
            assert(contexts.take(0) =~= Seq::<Seq<i128>>::empty());
            assert(key_views(followers@) =~= followers_of(
                contexts.take(0),
                symbols@,
                prefix as int,
                context,
            ));
            lemma_distinct_keys(contexts);
        }
        while i < keys.len()
            invariant
                len == symbols@.len(),
                contexts == contexts_of(symbols@, prefix as int),
                key_views(keys@) == contexts,
                keys@.len() == contexts.len(),
                i <= keys@.len(),
                k < groups.counts@.len(),
                groups.counts@.len() == distinct_keys(contexts).len(),
                groups.group_of@.len() == keys@.len(),
                context == distinct_keys(contexts)[k as int],
                forall|a: int, b: int|
                    0 <= a < b < distinct_keys(contexts).len() ==> #[trigger] distinct_keys(
                        contexts,
                    )[a] != #[trigger] distinct_keys(contexts)[b],
                forall|i: int|
                    0 <= i < keys@.len() ==> 0 <= (#[trigger] groups.group_of@[i])
                        < groups.counts@.len() && distinct_keys(
                        contexts,
                    )[groups.group_of@[i] as int] == keys@[i]@,
                key_views(followers@) == followers_of(
                    contexts.take(i as int),
                    symbols@,
                    prefix as int,
                    context,
                ),
                followers@.len() <= i,
            decreases keys@.len() - i,
        {
            proof {
                assert(contexts.take(i + 1).drop_last() =~= contexts.take(i as int));
                assert(contexts.take(i + 1).last() == contexts[i as int]);
                assert(contexts[i as int] == keys@[i as int]@);
            }
            if groups.group_of[i] == k {
                let mut key: Vec<i128> = Vec::new();
                key.push(symbols[prefix + i]);
                proof {
                    assert(key@ =~= seq![symbols@[prefix + i]]);
                    assert(key_views(followers@.push(key)) =~= key_views(followers@).push(key@));
                }
                followers.push(key);
            }
            i += 1;
        }
        proof {
            assert(contexts.take(keys@.len() as int) =~= contexts);
        }
        let grouped = group_keys(&followers);
        counts.push(ContextCounts { count: groups.counts[k], followers: grouped.counts });
        k += 1;
    }
    counts
}

/// The ids of the items of a trace, as symbols.
pub open spec fn id_symbols<I: Item>(items: Seq<I>) -> Seq<i128> {
    Seq::new(items.len(), |i: int| items[i].spec_id() as i128)
}

/// The strides of a trace, as symbols.
pub open spec fn stride_symbols<I: Item>(items: Seq<I>) -> Seq<i128> {
    Seq::new(strides_of(items).len(), |i: int| strides_of(items)[i] as i128)
}

impl<I: Item> Trace<I> {
    /// The ids of the items, as symbols.
    pub fn id_symbols(&self) -> (symbols: Vec<i128>)
        ensures
            symbols@ == id_symbols(self@),
    {
        let mut symbols: Vec<i128> = Vec::new();
        let mut i: usize = 0;
        while i < self.len()
            invariant
                i <= self@.len(),
                symbols@.len() == i,
                forall|j: int| 0 <= j < i ==> #[trigger] symbols@[j] == self@[j].spec_id() as i128,
            decreases self@.len() - i,
        {
            symbols.push(self.get(i).id() as i128);
            i += 1;
        }
        proof {
            assert(symbols@ =~= id_symbols(self@));
        }
        symbols
    }

    /// The strides, as symbols.
    pub fn stride_symbols(&self) -> (symbols: Vec<i128>)
        ensures
            symbols@ == stride_symbols(self@),
    {
        let strides = self.strides();
        let mut symbols: Vec<i128> = Vec::new();
        let mut i: usize = 0;
        while i < strides.len()
            invariant
                strides@ == strides_of(self@),
                i <= strides@.len(),
                symbols@.len() == i,
                forall|j: int| 0 <= j < i ==> #[trigger] symbols@[j] == strides@[j] as i128,
            decreases strides@.len() - i,
        {
            symbols.push(strides[i] as i128);
            i += 1;
        }
        proof {
            assert(symbols@ =~= stride_symbols(self@));
        }
        symbols
    }

    /// What follows each run of `prefix` items: for each run that occurs in the
    /// trace with an item after it, how often it occurs and how often each
    /// item follows it. Items count by their ids.
    ///
    /// The conditional entropy of an item, conditioned on the last `prefix`
    /// items seen, is the sum over these runs of the entropy of the followers,
    /// each weighted by the share of the run among the accesses.
    pub fn item_contexts(&self, prefix: usize) -> (counts: Vec<ContextCounts>)
        ensures
            counts@.len() == distinct_keys(contexts_of(id_symbols(self@), prefix as int)).len(),
            forall|k: int|
                0 <= k < counts@.len() ==> counts_context(
                    #[trigger] counts@[k],
                    id_symbols(self@),
                    prefix as int,
                    k,
                ),
    {
        let symbols = self.id_symbols();
        context_counts(&symbols, prefix)
    }

    /// What follows each run of `prefix` strides: for each run that occurs in
    /// the trace with a stride after it, how often it occurs and how often each
    /// stride follows it.
    ///
    /// This is analogous to `item_contexts` for strides.
    pub fn stride_contexts(&self, prefix: usize) -> (counts: Vec<ContextCounts>)
        ensures
            counts@.len() == distinct_keys(
                contexts_of(stride_symbols(self@), prefix as int),
            ).len(),
            forall|k: int|
                0 <= k < counts@.len() ==> counts_context(
                    #[trigger] counts@[k],
                    stride_symbols(self@),
                    prefix as int,
                    k,
                ),
    {
        let symbols = self.stride_symbols();
        context_counts(&symbols, prefix)
    }

    /// Get the number of unique sequences of items in the trace that are
    /// exactly `length` long and have an item after them.
    pub fn num_items(&self, length: usize) -> (number: usize)
        ensures
            number == distinct_keys(contexts_of(id_symbols(self@), length as int)).len(),
    {
        let symbols = self.id_symbols();
        let keys = runs(&symbols, length);
        group_keys(&keys).counts.len()
    }

    /// Get the number of unique sequences of strides in the trace that are
    /// exactly `length` long and have a stride after them.
    pub fn num_strides(&self, length: usize) -> (number: usize)
        ensures
            number == distinct_keys(contexts_of(stride_symbols(self@), length as int)).len(),
    {
        let symbols = self.stride_symbols();
        let keys = runs(&symbols, length);
        group_keys(&keys).counts.len()
    }
}

} // verus!
