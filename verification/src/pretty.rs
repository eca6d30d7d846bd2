//! Printed forms of traces and caches.

use crate::cache::Cache;
use crate::item::{GeneralModelItem, Item};
use crate::item_set::ItemSet;
use crate::replacement_policy::ReplacementPolicy;
use crate::stats::Stat;
use crate::trace::Trace;
use itertools::Itertools;
use vstd::prelude::*;

verus! {

/// The decimal digit for a number below ten.
pub open spec fn digit(n: nat) -> char {
    (n + 48) as char
}

/// The decimal numeral of `n`.
pub open spec fn decimal(n: nat) -> Seq<char>
    decreases n,
{
    if n < 10 {
        seq![digit(n)]
    } else {
        decimal(n / 10).push(digit(n % 10))
    }
}

/// The capital letter that stands for a number below 26: `A` for 0, `B` for 1,
/// and so on.
pub open spec fn letter(item: u32) -> char {
    (item + 65) as char
}

/// The label of an item: its letter where letters are used, and its decimal
/// numeral where they are not.
pub open spec fn label(item: u32, letters: bool) -> Seq<char> {
    if letters {
        seq![letter(item)]
    } else {
        decimal(item as nat)
    }
}

/// Whether every item has a letter.
pub open spec fn all_have_letters(items: Seq<u32>) -> bool {
    forall|i: int| 0 <= i < items.len() ==> #[trigger] items[i] < 26
}

/// The labels of `items`.
pub open spec fn labels(items: Seq<u32>) -> Seq<Seq<char>> {
    Seq::new(items.len(), |i: int| label(items[i], all_have_letters(items)))
}

/// The texts `texts` with `separator` between each two of them.
pub open spec fn joined(texts: Seq<Seq<char>>, separator: Seq<char>) -> Seq<char>
    decreases texts.len(),
{
    if texts.len() == 0 {
        Seq::empty()
    } else if texts.len() == 1 {
        texts[0]
    } else {
        joined(texts.drop_last(), separator) + separator + texts.last()
    }
}

/// The views of a vector of strings.
pub open spec fn text_views(texts: Seq<String>) -> Seq<Seq<char>> {
    Seq::new(texts.len(), |i: int| texts[i]@)
}

/// The printed form of `items`: their labels, separated by a comma and a
/// space.
pub open spec fn pretty(items: Seq<u32>) -> Seq<char> {
    joined(labels(items), seq![',', ' '])
}

/// The string of one character, by `char::to_string`. The contract claims
/// that the string holds this character and nothing else.
#[verifier::external_body]
fn char_to_string(c: char) -> (s: String)
    ensures
        s@ == seq![c],
{
    c.to_string()
}

/// The decimal numeral of a number, by `u64::to_string`. The contract claims
/// that the string holds the decimal digits of the number, the most
/// significant first, without leading zeros.
#[verifier::external_body]
fn number_to_string(n: u64) -> (s: String)
    ensures
        s@ == decimal(n as nat),
{
    n.to_string()
}

/// The strings of `texts` with `separator` between each two of them, by
/// `itertools::Itertools::intersperse`, collected into one string. The
/// contract claims that the result is the strings in their order, with one
/// separator between neighbours and none at the ends.
#[verifier::external_body]
fn join(texts: Vec<String>, separator: String) -> (s: String)
    ensures
        s@ == joined(text_views(texts@), separator@),
{
    Itertools::intersperse(texts.into_iter(), separator).collect()
}

/// The printed form of `items`. If the items are all smaller than 26, they are
/// displayed as letters, and as numbers if not.
pub fn pretty_print_items(items: &Vec<u32>) -> (s: String)
    ensures
        s@ == pretty(items@),
{
    let mut letters = true;
    let mut i: usize = 0;
    while i < items.len()
        invariant
            i <= items@.len(),
            letters == all_have_letters(items@.take(i as int)),
        decreases items@.len() - i,
    {
        proof {
            assert(items@.take(i + 1).drop_last() =~= items@.take(i as int));
            if all_have_letters(items@.take(i + 1)) {
                assert(items@.take(i + 1)[i as int] < 26);
                assert forall|k: int| 0 <= k < i implies #[trigger] items@.take(i as int)[k]
                    < 26 by {
                    assert(items@.take(i + 1)[k] < 26);
                }
            }
        }
        if items[i] >= 26 {
            letters = false;
        }
        i += 1;
    }
    proof {
        assert(items@.take(items@.len() as int) =~= items@);
    }
    let mut texts: Vec<String> = Vec::new();
    let mut i: usize = 0;
    while i < items.len()
        invariant
            i <= items@.len(),
            letters == all_have_letters(items@),
            texts@.len() == i,
            forall|k: int| 0 <= k < i ==> (#[trigger] texts@[k])@ == label(items@[k], letters),
        decreases items@.len() - i,
    {
        let item = items[i];
        let text = if letters {
            // treat the number as an ascii value; adding the ascii value of A so
            // we get capital letters
            char_to_string((item as u8 + 65) as char)
        } else {
            number_to_string(item as u64)
        };
        texts.push(text);
        i += 1;
    }
    proof {
        assert(text_views(texts@) =~= labels(items@));
    }
    let separator = ", ".to_owned();
    proof {
        reveal_strlit(", ");
        assert(separator@ =~= seq![',', ' ']);
    }
    join(texts, separator)
}

/// The decimal numerals of the ids of `items`.
pub open spec fn id_numerals<I: Item>(items: Seq<I>) -> Seq<Seq<char>> {
    Seq::new(items.len(), |i: int| decimal(items[i].spec_id() as nat))
}

/// The numerals `numerals`, each with a space after it.
pub open spec fn spaced(numerals: Seq<Seq<char>>) -> Seq<char>
    decreases numerals.len(),
{
    if numerals.len() == 0 {
        Seq::empty()
    } else {
        spaced(numerals.drop_last()) + numerals.last() + seq![' ']
    }
}

impl GeneralModelItem {
    /// The item as text: its identifier in decimal.
    pub fn to_string(&self) -> (s: String)
        ensures
            s@ == decimal(self.spec_id() as nat),
    {
        number_to_string(self.id())
    }
}

/// The decimal numerals of the ids of the items of `set`.
fn id_texts<I: Item>(set: &ItemSet<I>) -> (texts: Vec<String>)
    ensures
        text_views(texts@) == id_numerals(set@),
{
    let mut texts: Vec<String> = Vec::new();
    let mut i: usize = 0;
    while i < set.len()
        invariant
            i <= set@.len(),
            texts@.len() == i,
            forall|k: int|
                0 <= k < i ==> (#[trigger] texts@[k])@ == decimal(set@[k].spec_id() as nat),
        decreases set@.len() - i,
    {
        texts.push(number_to_string(set.get(i).id()));
        i += 1;
    }
    proof {
        assert(text_views(texts@) =~= id_numerals(set@));
    }
    texts
}

impl<R: ReplacementPolicy<I>, S: Stat<I>, I: Item> Cache<R, S, I> {
    /// The resident items as text: the ids in decimal, in the order of
    /// admission, separated by a comma and a space.
    pub fn to_string(&self) -> (s: String)
        ensures
            s@ == joined(id_numerals(self@.set), seq![',', ' ']),
    {
        let texts = id_texts(self.set());
        let separator = ", ".to_owned();
        proof {
            reveal_strlit(", ");
            assert(separator@ =~= seq![',', ' ']);
        }
        join(texts, separator)
    }
}

impl<I: Item> Trace<I> {
    /// The trace as text: the ids of the items in decimal, in the order of the
    /// accesses, each with a space after it.
    pub fn to_string(&self) -> (s: String)
        ensures
            s@ == spaced(id_numerals(self@)),
    {
        let mut texts: Vec<String> = Vec::new();
        let space = " ".to_owned();
        proof {
            reveal_strlit(" ");
            assert(space@ =~= seq![' ']);
        }
        let mut i: usize = 0;
        proof {
            assert(self@.take(0) =~= Seq::<I>::empty());
            assert(id_numerals(self@.take(0)) =~= Seq::<Seq<char>>::empty());
        }
        while i < self.len()
            invariant
                i <= self@.len(),
                space@ == seq![' '],
                texts@.len() == 2 * i,
                joined(text_views(texts@), Seq::<char>::empty()) == spaced(
                    id_numerals(self@.take(i as int)),
                ),
            decreases self@.len() - i,
        {
            let ghost before = text_views(texts@);
            let numeral = number_to_string(self.get(i).id());
            proof {
                let part = id_numerals(self@.take(i + 1));
                assert(part.drop_last() =~= id_numerals(self@.take(i as int)));
                assert(part.last() == numeral@);
                let one = before.push(numeral@);
                let two = one.push(space@);
                assert(one.drop_last() =~= before);
                assert(two.drop_last() =~= one);
                assert(text_views(texts@.push(numeral).push(space)) =~= two);
                lemma_joined_push(before, numeral@);
                lemma_joined_push(one, space@);
            }
            texts.push(numeral);
            texts.push(space.clone());
            i += 1;
        }
        proof {
            assert(self@.take(self@.len() as int) =~= self@);
        }
        join(texts, String::new())
    }
}

/// Joining with nothing between is putting one text after the other.
pub proof fn lemma_joined_push(texts: Seq<Seq<char>>, text: Seq<char>)
    ensures
        joined(texts.push(text), Seq::empty()) == joined(texts, Seq::empty()) + text,
{
    let all = texts.push(text);
    assert(all.drop_last() =~= texts);
    if texts.len() == 0 {
        assert(all[0] == text);
        assert(Seq::<char>::empty() + text =~= text);
    } else {
        assert(joined(texts, Seq::empty()) + Seq::<char>::empty() + text =~= joined(
            texts,
            Seq::empty(),
        ) + text);
    }
}

impl Trace<u32> {
    /// If the elements in the trace are all smaller than 26, display them as
    /// letters instead.
    #[must_use]
    pub fn pretty_print(&self) -> (s: String)
        ensures
            s@ == pretty(self@),
    {
        let mut items: Vec<u32> = Vec::new();
        let mut i: usize = 0;
        while i < self.len()
            invariant
                i <= self@.len(),
                items@ == self@.take(i as int),
            decreases self@.len() - i,
        {
            items.push(self.get(i));
            proof {
                assert(items@ =~= self@.take(i + 1));
            }
            i += 1;
        }
        proof {
            assert(self@.take(self@.len() as int) =~= self@);
        }
        pretty_print_items(&items)
    }
}

impl<R: ReplacementPolicy<u32>, S: Stat<u32>> Cache<R, S> {
    /// If the elements in the cache are all smaller than 26, display them as
    /// letters instead. The elements stand in the order of their admission.
    #[must_use]
    pub fn pretty_print(&self) -> (s: String)
        ensures
            s@ == pretty(self@.set),
    {
        let set = self.set();
        let mut items: Vec<u32> = Vec::new();
        let mut i: usize = 0;
        while i < set.len()
            invariant
                i <= set@.len(),
                items@ == set@.take(i as int),
            decreases set@.len() - i,
        {
            items.push(set.get(i));
            proof {
                assert(items@ =~= set@.take(i + 1));
            }
            i += 1;
        }
        proof {
            assert(set@.take(set@.len() as int) =~= set@);
        }
        pretty_print_items(&items)
    }
}

} // verus!
