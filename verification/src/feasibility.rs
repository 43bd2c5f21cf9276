//! The feasibility ceiling: how many distinct combinations a set of layers
//! can yield.
//!
//! Every layer contributes the number of its options that no skip pattern
//! matches, and at least 1: a layer without options, or with none left,
//! takes part in no choice and must not bring the product to 0.

use crate::text::names;
use regex::Regex;
use vstd::arithmetic::mul::{lemma_mul_inequality, lemma_mul_is_commutative};
use vstd::prelude::*;

verus! {

/// Whether the regular expression written as `pattern` has a match somewhere
/// in `text`. It stands for what `regex::Regex::is_match` answers on a
/// `Regex` that `regex::Regex::new` built from `pattern`.
pub uninterp spec fn regex_is_match(pattern: Seq<char>, text: Seq<char>) -> bool;

/// Whether one of the skip patterns matches the option.
pub open spec fn is_skipped(patterns: Seq<Seq<char>>, option: Seq<char>) -> bool {
    exists|p: int| 0 <= p < patterns.len() && regex_is_match(patterns[p], option)
}

/// The options that no skip pattern matches, as a predicate value.
pub open spec fn kept_pred(patterns: Seq<Seq<char>>) -> spec_fn(Seq<char>) -> bool {
    |option: Seq<char>| !is_skipped(patterns, option)
}

/// How many options of a layer no skip pattern matches.
pub open spec fn kept_count(layer: Seq<Seq<char>>, patterns: Seq<Seq<char>>) -> nat {
    layer.filter(kept_pred(patterns)).len()
}

/// The counts of kept options of all layers.
pub open spec fn kept_counts(layers: Seq<Seq<Seq<char>>>, patterns: Seq<Seq<char>>) -> Seq<nat> {
    layers.map_values(|layer: Seq<Seq<char>>| kept_count(layer, patterns))
}

/// The product of the counts, each count of 0 taken as 1.
pub open spec fn ceiling(counts: Seq<nat>) -> nat
    decreases counts.len(),
{
    if counts.len() == 0 {
        1
    } else if counts.last() == 0 {
        ceiling(counts.drop_last())
    } else {
        ceiling(counts.drop_last()) * counts.last()
    }
}

/// The feasibility ceiling of a set of layers: the product, over the layers,
/// of the number of options that no skip pattern matches, where a layer with
/// no such option counts as 1.
pub open spec fn feasible_combinations(
    layers: Seq<Seq<Seq<char>>>,
    patterns: Seq<Seq<char>>,
) -> nat {
    ceiling(kept_counts(layers, patterns))
}

/// The skip patterns that were given, none where the list is absent.
pub open spec fn patterns_of(skipped_traits: Option<Vec<String>>) -> Seq<Seq<char>> {
    match skipped_traits {
        Some(patterns) => names(patterns@),
        None => Seq::empty(),
    }
}

/// The counts of a vector, as natural numbers.
pub open spec fn as_counts(counts: Seq<usize>) -> Seq<nat> {
    counts.map_values(|count: usize| count as nat)
}

/// A ceiling is at least 1, and the ceiling of a front part of the counts is
/// no more than the ceiling of them all.
pub proof fn lemma_ceiling_monotone(counts: Seq<nat>, upto: int)
    requires
        0 <= upto <= counts.len(),
    ensures
        1 <= ceiling(counts.take(upto)) <= ceiling(counts),
    decreases counts.len(),
{
    if counts.len() == 0 {
    } else if upto == counts.len() {
        assert(counts.take(upto) == counts);
        lemma_ceiling_monotone(counts.drop_last(), upto - 1);
        let before = ceiling(counts.drop_last());
        if counts.last() != 0 {
            lemma_mul_inequality(1, counts.last() as int, before as int);
            lemma_mul_is_commutative(before as int, counts.last() as int);
        }
    } else {
        lemma_ceiling_monotone(counts.drop_last(), upto);
        assert(counts.drop_last().take(upto) == counts.take(upto));
        let before = ceiling(counts.drop_last());
        if counts.last() != 0 {
            lemma_mul_inequality(1, counts.last() as int, before as int);
            lemma_mul_is_commutative(before as int, counts.last() as int);
        }
    }
}

/// Searches `text` for a match of the regular expression `pattern`.
///
/// The body builds the expression with `regex::Regex::new` and asks
/// `regex::Regex::is_match`. Where the expression cannot be built the answer
/// is `None`; nothing is claimed about when that is. An answer `Some` holds
/// what `regex_is_match` names.
#[verifier::external_body]
fn search(pattern: &str, text: &str) -> (found: Option<bool>)
    ensures
        found matches Some(yes) ==> yes == regex_is_match(pattern@, text@),
{
    match Regex::new(pattern) {
        Ok(expression) => Some(expression.is_match(text)),
        Err(_) => None,
    }
}

/// Whether one of the patterns matches the option; `None` where a pattern
/// could not be built before a match was found.
pub fn skipped_by(patterns: &Vec<String>, option: &str) -> (answer: Option<bool>)
    ensures
        answer matches Some(yes) ==> yes == is_skipped(names(patterns@), option@),
        patterns.len() == 0 ==> answer == Some(false),
{
    let mut p: usize = 0;
    while p < patterns.len()
        invariant
            p <= patterns.len(),
            forall|q: int| 0 <= q < p ==> !regex_is_match(names(patterns@)[q], option@),
        decreases patterns.len() - p,
    {
        match search(patterns[p].as_str(), option) {
            None => {
                return None;
            },
            Some(yes) => {
                if yes {
                    assert(regex_is_match(names(patterns@)[p as int], option@));
                    return Some(true);
                }
            },
        }
        p += 1;
    }
    Some(false)
}

/// How many options of a layer no pattern matches; `None` where a pattern
/// could not be built.
pub fn count_kept(layer: &Vec<String>, patterns: &Vec<String>) -> (answer: Option<usize>)
    ensures
        answer matches Some(count) ==> count == kept_count(names(layer@), names(patterns@)),
        patterns.len() == 0 ==> answer is Some,
{
    let ghost options = names(layer@);
    let ghost keep = kept_pred(names(patterns@));
    let mut kept: usize = 0;
    let mut i: usize = 0;
    proof {
        assert(options.take(0).filter(keep).len() == 0) by {
            reveal(Seq::filter);
        }
    }
    while i < layer.len()
        invariant
            i <= layer.len(),
            options == names(layer@),
            keep == kept_pred(names(patterns@)),
            kept <= i,
            kept == options.take(i as int).filter(keep).len(),
        decreases layer.len() - i,
    {
        proof {
            assert(options.take(i + 1) == options.take(i as int).push(layer@[i as int]@));
            options.take(i as int).lemma_filter_push(layer@[i as int]@, keep);
        }
        match skipped_by(patterns, layer[i].as_str()) {
            None => {
                return None;
            },
            Some(skipped) => {
                if !skipped {
                    kept += 1;
                }
            },
        }
        i += 1;
    }
    assert(options.take(layer.len() as int) == options);
    Some(kept)
}

/// The ceiling that belongs to the counts of kept options of the layers:
/// their product, with 1 in place of every 0. `None` where it does not fit
/// `usize`.
pub fn ceiling_of(counts: &Vec<usize>) -> (answer: Option<usize>)
    ensures
        match answer {
            Some(product) => product == ceiling(as_counts(counts@)),
            None => ceiling(as_counts(counts@)) > usize::MAX,
        },
{
    let ghost all = as_counts(counts@);
    let mut product: usize = 1;
    let mut i: usize = 0;
    while i < counts.len()
        invariant
            i <= counts.len(),
            all == as_counts(counts@),
            product == ceiling(all.take(i as int)),
        decreases counts.len() - i,
    {
        assert(all.take(i + 1).drop_last() == all.take(i as int));
        if counts[i] != 0 {
            match product.checked_mul(counts[i]) {
                Some(next) => {
                    product = next;
                },
                None => {
                    proof {
                        lemma_ceiling_monotone(all, i + 1);
                    }
                    return None;
                },
            }
        }
        i += 1;
    }
    assert(all.take(counts.len() as int) == all);
    Some(product)
}

/// Counts the distinct combinations that the layers can yield.
///
/// `skipped_traits` are regular expressions; an option that one of them
/// matches does not count. The answer is `None` where the number does not
/// fit `usize`, or where a pattern could not be built.
pub fn get_permutations(layers: &Vec<Vec<String>>, skipped_traits: Option<Vec<String>>) -> (answer:
    Option<usize>)
    ensures
        answer matches Some(count) ==> count == feasible_combinations(
            layers.deep_view(),
            patterns_of(skipped_traits),
        ),
        patterns_of(skipped_traits).len() == 0 ==> (answer is Some <==> feasible_combinations(
            layers.deep_view(),
            patterns_of(skipped_traits),
        ) <= usize::MAX),
{
    let ghost all = layers.deep_view();
    let ghost given = patterns_of(skipped_traits);
    let patterns: Vec<String> = match skipped_traits {
        Some(list) => list,
        None => Vec::new(),
    };
    let mut counts: Vec<usize> = Vec::new();
    let mut i: usize = 0;
    while i < layers.len()
        invariant
            i <= layers.len(),
            all == layers.deep_view(),
            names(patterns@) == given,
            given == patterns_of(skipped_traits),
            given.len() == patterns.len(),
            counts.len() == i,
            forall|k: int| 0 <= k < i ==> counts[k] as nat == kept_counts(all, given)[k],
        decreases layers.len() - i,
    {
        assert(all[i as int] =~= names(layers@[i as int]@));
        match count_kept(&layers[i], &patterns) {
            Some(count) => {
                counts.push(count);
            },
            None => {
                return None;
            },
        }
        i += 1;
    }
    assert(as_counts(counts@) =~= kept_counts(all, given));
    ceiling_of(&counts)
}

} // verus!
