//! Drawing combinations and keeping them apart by their fingerprints.
//!
//! A combination holds one option of every layer that has options, in the
//! order of the layers. Combinations are drawn at random, by the weights of
//! the options, until as many different ones as were asked for have come
//! together. They are kept in a map from fingerprint to combination, and a
//! combination whose fingerprint is already there is drawn again.

use crate::error::{CustomError, Failure};
use crate::feasibility::{
    as_counts, ceiling, ceiling_of, feasible_combinations, kept_counts, kept_pred,
};
use crate::text::names;
use crate::weights::{
    calculate_weights_and_total, clamp, draw_below, is_weight_table, lemma_weight_table_shape,
    selects, total_weight, weighted_index,
};
use std::collections::hash_map::DefaultHasher;
use std::collections::HashMap;
use std::hash::Hasher;
use vstd::prelude::*;
use vstd::std_specs::hash::DefaultHasherAdditionalSpecFns;
use vstd::string::StringSliceAdditionalSpecFns;

verus! {

/// What is written to the hasher for a combination: for every option its
/// bytes, and after them one byte that no text holds.
pub open spec fn fingerprint_writes(combination: Seq<Seq<char>>) -> Seq<Seq<u8>>
    decreases combination.len(),
{
    if combination.len() == 0 {
        Seq::empty()
    } else {
        fingerprint_writes(combination.drop_last()).push(
            vstd::utf8::encode_utf8(combination.last()),
        ).push(seq![0xffu8])
    }
}

/// The fingerprint of a combination: the digest of the standard hasher over
/// its options in order.
pub open spec fn combination_fingerprint(combination: Seq<Seq<char>>) -> u64 {
    DefaultHasher::spec_finish(fingerprint_writes(combination))
}

/// Computes the fingerprint of a combination.
pub fn fingerprint(combination: &Vec<String>) -> (digest: u64)
    ensures
        digest == combination_fingerprint(combination.deep_view()),
{
    let mut hasher = DefaultHasher::new();
    let separator: Vec<u8> = vec![0xffu8];
    let ghost all = combination.deep_view();
    let mut i: usize = 0;
    while i < combination.len()
        invariant
            i <= combination.len(),
            all == combination.deep_view(),
            separator@ == seq![0xffu8],
            hasher@ == fingerprint_writes(all.take(i as int)),
        decreases combination.len() - i,
    {
        assert(all.take(i + 1).drop_last() == all.take(i as int));
        hasher.write(combination[i].as_str().as_bytes());
        hasher.write(separator.as_slice());
        i += 1;
    }
    assert(all.take(combination.len() as int) == all);
    hasher.finish()
}

/// The cumulative weight table of a layer.
pub open spec fn table_of(layer: Seq<Seq<char>>) -> Seq<u64> {
    Seq::new(layer.len(), |i: int| clamp(total_weight(layer.take(i + 1))))
}

/// The first position at or after `from` whose entry is above `draw`; the
/// length of the table when there is none.
pub open spec fn first_above(table: Seq<u64>, draw: u64, from: int) -> int
    decreases table.len() - from,
{
    if from >= table.len() {
        table.len() as int
    } else if table[from] > draw {
        from
    } else {
        first_above(table, draw, from + 1)
    }
}

/// The number below which a draw for a layer must lie: its total weight, or
/// the number of its options where that weight is 0.
pub open spec fn draw_bound(layer: Seq<Seq<char>>) -> nat {
    if clamp(total_weight(layer)) == 0 {
        layer.len()
    } else {
        clamp(total_weight(layer)) as nat
    }
}

/// The position of the option that a draw picks in a layer: the draw itself
/// where the layer has total weight 0, else the option on which the draw
/// falls in the cumulative table.
pub open spec fn picked_index(layer: Seq<Seq<char>>, draw: u64) -> int {
    if clamp(total_weight(layer)) == 0 {
        draw as int
    } else {
        first_above(table_of(layer), draw, 0)
    }
}

/// The combination that a list of draws picks, one draw for every layer. A
/// layer without options adds nothing, and its draw is not looked at.
pub open spec fn selection(layers: Seq<Seq<Seq<char>>>, draws: Seq<u64>) -> Seq<Seq<char>>
    decreases layers.len(),
{
    if layers.len() == 0 {
        Seq::empty()
    } else if layers.last().len() == 0 {
        selection(layers.drop_last(), draws.drop_last())
    } else {
        selection(layers.drop_last(), draws.drop_last()).push(
            layers.last()[picked_index(layers.last(), draws.last())],
        )
    }
}

/// Whether every draw lies below the bound of its layer.
pub open spec fn draws_fit(layers: Seq<Seq<Seq<char>>>, draws: Seq<u64>) -> bool {
    &&& draws.len() == layers.len()
    &&& forall|i: int|
        0 <= i < layers.len() && layers[i].len() > 0 ==> (draws[i] as nat) < draw_bound(layers[i])
}

/// Whether `combination` holds one option of every layer that has options,
/// in the order of the layers, and nothing else.
pub open spec fn is_selection(layers: Seq<Seq<Seq<char>>>, combination: Seq<Seq<char>>) -> bool
    decreases layers.len(),
{
    if layers.len() == 0 {
        combination.len() == 0
    } else if layers.last().len() == 0 {
        is_selection(layers.drop_last(), combination)
    } else {
        &&& combination.len() > 0
        &&& layers.last().contains(combination.last())
        &&& is_selection(layers.drop_last(), combination.drop_last())
    }
}

/// How many combinations the layers can yield at most: the product of their
/// numbers of options, a layer without options counting as 1.
pub open spec fn size_ceiling(layers: Seq<Seq<Seq<char>>>) -> nat {
    ceiling(layers.map_values(|layer: Seq<Seq<char>>| layer.len()))
}

/// Whether every entry of a map of combinations stands under the
/// fingerprint of its combination and is a selection from `layers`.
pub open spec fn is_combination_set(
    layers: Seq<Seq<Seq<char>>>,
    set: Map<u64, Vec<String>>,
) -> bool {
    forall|key: u64| #[trigger]
        set.contains_key(key) ==> key == combination_fingerprint(set[key].deep_view())
            && is_selection(layers, set[key].deep_view())
}

/// Whether no two entries of a map hold the same combination.
pub open spec fn pairwise_distinct(set: Map<u64, Vec<String>>) -> bool {
    forall|a: u64, b: u64|
        set.contains_key(a) && set.contains_key(b) && a != b ==> set[a].deep_view()
            != set[b].deep_view()
}

/// A set of combinations, each kept under its fingerprint.
///
/// Two combinations with one fingerprint cannot both be in the set: the one
/// that comes second is turned away, whether it is the same combination or
/// another one.
pub struct CombinationSet {
    entries: HashMap<u64, Vec<String>>,
}

impl View for CombinationSet {
    type V = Map<u64, Seq<Seq<char>>>;

    closed spec fn view(&self) -> Map<u64, Seq<Seq<char>>> {
        Map::new(
            |key: u64| self.entries@.contains_key(key),
            |key: u64| self.entries@[key].deep_view(),
        )
    }
}

impl CombinationSet {
    /// The invariant of the set: it is finite, and every combination stands
    /// under its own fingerprint.
    pub open spec fn wf(&self) -> bool {
        &&& self@.dom().finite()
        &&& forall|key: u64| #[trigger]
            self@.contains_key(key) ==> key == combination_fingerprint(self@[key])
    }

    /// A set without combinations.
    pub fn new() -> (set: CombinationSet)
        ensures
            set.wf(),
            set@ == Map::<u64, Seq<Seq<char>>>::empty(),
    {
        let set = CombinationSet { entries: HashMap::new() };
        set
    }

    /// The number of combinations in the set.
    pub fn len(&self) -> (count: usize)
        ensures
            count == self@.len(),
    {
        assert(self@.dom() =~= self.entries@.dom());
        self.entries.len()
    }

    /// Puts a combination into the set, unless its fingerprint is taken.
    pub fn insert(&mut self, combination: Vec<String>) -> (added: bool)
        requires
            old(self).wf(),
        ensures
            final(self).wf(),
            added == !old(self)@.contains_key(combination_fingerprint(combination.deep_view())),
            final(self)@ == if added {
                old(self)@.insert(
                    combination_fingerprint(combination.deep_view()),
                    combination.deep_view(),
                )
            } else {
                old(self)@
            },
    {
        let key = fingerprint(&combination);
        if self.entries.contains_key(&key) {
            false
        } else {
            let ghost before = self@;
            self.entries.insert(key, combination);
            assert(self@ =~= before.insert(key, combination.deep_view()));
            true
        }
    }

    /// Hands the combinations out as a map from fingerprint to combination.
    pub fn into_map(self) -> (map: HashMap<u64, Vec<String>>)
        ensures
            map@.dom() == self@.dom(),
            forall|key: u64| #[trigger]
                map@.contains_key(key) ==> map@[key].deep_view() == self@[key],
    {
        self.entries
    }

    /// Draws combinations of `layers` until `count` new ones are in the set.
    ///
    /// Before anything is drawn `count` is held against the most that the
    /// layers can yield; where it is more, nothing is drawn and the failure
    /// names that most. The draws are counted, and after
    /// `ATTEMPTS_PER_COMBINATION` draws for every combination asked for the
    /// drawing stops; the failure then names how many new ones there are.
    pub fn extend(&mut self, layers: &Vec<Vec<String>>, count: usize) -> (result: Result<
        (),
        CustomError,
    >)
        requires
            old(self).wf(),
        ensures
            final(self).wf(),
            old(self)@.submap_of(final(self)@),
            forall|key: u64|
                final(self)@.contains_key(key) && !old(self)@.contains_key(key) ==> is_selection(
                    layers.deep_view(),
                    #[trigger] final(self)@[key],
                ),
            match result {
                Ok(_) => final(self)@.len() == old(self)@.len() + count,
                Err(error) => {
                    &&& error@ matches Failure::InvalidTotalSupply(wanted, reached)
                    &&& wanted == count
                    &&& reached < count
                    &&& if count > size_ceiling(layers.deep_view()) {
                        reached == size_ceiling(layers.deep_view()) && final(self)@ == old(self)@
                    } else {
                        final(self)@.len() == old(self)@.len() + reached
                    }
                },
            },
            count > size_ceiling(layers.deep_view()) ==> result is Err,
            count == 0 ==> result is Ok,
    {
        let ghost all = layers.deep_view();
        let ghost before = self@;
        let mut sizes: Vec<usize> = Vec::new();
        let mut i: usize = 0;
        while i < layers.len()
            invariant
                i <= layers.len(),
                all == layers.deep_view(),
                sizes.len() == i,
                forall|k: int| 0 <= k < i ==> sizes[k] == all[k].len(),
            decreases layers.len() - i,
        {
            sizes.push(layers[i].len());
            i += 1;
        }
        assert(as_counts(sizes@) =~= all.map_values(|layer: Seq<Seq<char>>| layer.len()));
        match ceiling_of(&sizes) {
            Some(most) => {
                if most < count {
                    return Err(CustomError::InvalidTotalSupply(count as u64, most as u64));
                }
            },
            None => {},
        }
        let tables = layer_tables(layers);
        let budget: u64 = match (count as u64).checked_mul(ATTEMPTS_PER_COMBINATION) {
            Some(product) => product,
            None => u64::MAX,
        };
        let mut attempts: u64 = 0;
        let mut added: usize = 0;
        while added < count && attempts < budget
            invariant
                all == layers.deep_view(),
                tables.len() == layers.len(),
                forall|k: int|
                    0 <= k < layers.len() ==> is_weight_table(
                        #[trigger] layers.deep_view()[k],
                        tables[k].0@,
                        tables[k].1,
                    ),
                attempts <= budget,
                added <= count,
                self.wf(),
                before.dom().finite(),
                before.submap_of(self@),
                self@.len() == before.len() + added,
                forall|key: u64|
                    self@.contains_key(key) && !before.contains_key(key) ==> is_selection(
                        all,
                        #[trigger] self@[key],
                    ),
                count <= size_ceiling(all),
            decreases budget - attempts,
        {
            attempts += 1;
            let candidate = draw_combination(layers, &tables);
            if self.insert(candidate) {
                added += 1;
            }
        }
        if added == count {
            Ok(())
        } else {
            Err(CustomError::InvalidTotalSupply(count as u64, added as u64))
        }
    }
}

/// How many of the layers have options.
pub open spec fn nonempty_count(layers: Seq<Seq<Seq<char>>>) -> nat
    decreases layers.len(),
{
    if layers.len() == 0 {
        0
    } else {
        nonempty_count(layers.drop_last()) + if layers.last().len() > 0 {
            1nat
        } else {
            0nat
        }
    }
}

/// A selection holds as many options as there are layers with options; where
/// every layer has options, as many as there are layers.
pub proof fn lemma_selection_length(layers: Seq<Seq<Seq<char>>>, combination: Seq<Seq<char>>)
    requires
        is_selection(layers, combination),
    ensures
        combination.len() == nonempty_count(layers),
        (forall|i: int| 0 <= i < layers.len() ==> (#[trigger] layers[i]).len() > 0)
            ==> combination.len() == layers.len(),
    decreases layers.len(),
{
    if layers.len() > 0 {
        if layers.last().len() == 0 {
            lemma_selection_length(layers.drop_last(), combination);
        } else {
            lemma_selection_length(layers.drop_last(), combination.drop_last());
        }
        if forall|i: int| 0 <= i < layers.len() ==> (#[trigger] layers[i]).len() > 0 {
            assert(forall|i: int|
                0 <= i < layers.drop_last().len() ==> (#[trigger] layers.drop_last()[i]).len() > 0);
        }
    }
}

/// Every option of a selection is an option of one of the layers.
pub proof fn lemma_selection_members(
    layers: Seq<Seq<Seq<char>>>,
    combination: Seq<Seq<char>>,
    position: int,
)
    requires
        is_selection(layers, combination),
        0 <= position < combination.len(),
    ensures
        exists|i: int|
            0 <= i < layers.len() && (#[trigger] layers[i]).contains(combination[position]),
    decreases layers.len(),
{
    if layers.len() > 0 {
        if layers.last().len() == 0 {
            lemma_selection_members(layers.drop_last(), combination, position);
            let i = choose|i: int|
                0 <= i < layers.drop_last().len() && (#[trigger] layers.drop_last()[i]).contains(
                    combination[position],
                );
        } else if position == combination.len() - 1 {
        } else {
            lemma_selection_members(layers.drop_last(), combination.drop_last(), position);
            let i = choose|i: int|
                0 <= i < layers.drop_last().len() && (#[trigger] layers.drop_last()[i]).contains(
                    combination.drop_last()[position],
                );
        }
    }
}

/// A predicate that every element meets filters nothing out.
proof fn lemma_filter_keeps_all(s: Seq<Seq<char>>, pred: spec_fn(Seq<char>) -> bool)
    requires
        forall|i: int| 0 <= i < s.len() ==> pred(#[trigger] s[i]),
    ensures
        s.filter(pred) == s,
    decreases s.len(),
{
    reveal(Seq::filter);
    if s.len() > 0 {
        lemma_filter_keeps_all(s.drop_last(), pred);
    }
}

/// Without skip patterns the feasibility ceiling is the product of the sizes
/// of the layers, a layer without options counting as 1.
pub proof fn lemma_ceiling_without_patterns(layers: Seq<Seq<Seq<char>>>)
    ensures
        feasible_combinations(layers, Seq::empty()) == size_ceiling(layers),
{
    let none = Seq::<Seq<char>>::empty();
    assert forall|i: int| 0 <= i < layers.len() implies kept_counts(layers, none)[i]
        == layers[i].len() by {
        lemma_filter_keeps_all(layers[i], kept_pred(none));
    }
    assert(kept_counts(layers, none) =~= layers.map_values(|layer: Seq<Seq<char>>| layer.len()));
}

/// The option on which a draw falls is the first whose entry is above the
/// draw.
pub proof fn lemma_selects_first_above(table: Seq<u64>, draw: u64, index: int, from: int)
    requires
        selects(table, draw, index),
        0 <= from <= index,
    ensures
        first_above(table, draw, from) == index,
    decreases index - from,
{
    if from < index {
        lemma_selects_first_above(table, draw, index, from + 1);
    }
}

/// The first entry above a draw lies in the table where the last entry is
/// above it.
pub proof fn lemma_first_above_in_range(table: Seq<u64>, draw: u64, from: int)
    requires
        0 <= from < table.len(),
        table[table.len() - 1] > draw,
    ensures
        from <= first_above(table, draw, from) < table.len(),
    decreases table.len() - from,
{
    if table[from] <= draw {
        lemma_first_above_in_range(table, draw, from + 1);
    }
}

/// Draws that fit pick a selection.
pub proof fn lemma_selection_is_selection(layers: Seq<Seq<Seq<char>>>, draws: Seq<u64>)
    requires
        draws_fit(layers, draws),
    ensures
        is_selection(layers, selection(layers, draws)),
    decreases layers.len(),
{
    if layers.len() > 0 {
        let front = layers.drop_last();
        lemma_selection_is_selection(front, draws.drop_last());
        let layer = layers.last();
        if layer.len() > 0 {
            if clamp(total_weight(layer)) != 0 {
                let table = table_of(layer);
                assert(layer.take(layer.len() as int) == layer);
                lemma_first_above_in_range(table, draws.last(), 0);
            }
            let picked = selection(layers, draws);
            assert(picked.drop_last() == selection(front, draws.drop_last()));
        }
    }
}

/// Entries that stand under the fingerprints of their combinations hold
/// different combinations.
pub proof fn lemma_fingerprints_separate(layers: Seq<Seq<Seq<char>>>, set: Map<u64, Vec<String>>)
    requires
        is_combination_set(layers, set),
    ensures
        pairwise_distinct(set),
{
}

/// The cumulative tables of all layers.
fn layer_tables(layers: &Vec<Vec<String>>) -> (tables: Vec<(Vec<u64>, u64)>)
    ensures
        tables.len() == layers.len(),
        forall|i: int|
            0 <= i < layers.len() ==> is_weight_table(
                #[trigger] layers.deep_view()[i],
                tables[i].0@,
                tables[i].1,
            ),
{
    let mut tables: Vec<(Vec<u64>, u64)> = Vec::new();
    let mut i: usize = 0;
    while i < layers.len()
        invariant
            i <= layers.len(),
            tables.len() == i,
            forall|k: int|
                0 <= k < i ==> is_weight_table(
                    #[trigger] layers.deep_view()[k],
                    tables[k].0@,
                    tables[k].1,
                ),
        decreases layers.len() - i,
    {
        let table = calculate_weights_and_total(layers[i].as_slice());
        assert(layers.deep_view()[i as int] =~= names(layers@[i as int]@));
        tables.push(table);
        i += 1;
    }
    tables
}

/// Builds the combination that a list of draws picks.
///
/// `tables` are the cumulative tables of the layers, and every draw lies
/// below the bound of its layer.
pub fn combination_for_draws(
    layers: &Vec<Vec<String>>,
    tables: &Vec<(Vec<u64>, u64)>,
    draws: &Vec<u64>,
) -> (combination: Vec<String>)
    requires
        tables.len() == layers.len(),
        forall|i: int|
            0 <= i < layers.len() ==> is_weight_table(
                #[trigger] layers.deep_view()[i],
                tables[i].0@,
                tables[i].1,
            ),
        draws_fit(layers.deep_view(), draws@),
    ensures
        combination.deep_view() == selection(layers.deep_view(), draws@),
{
    let ghost all = layers.deep_view();
    let mut combination: Vec<String> = Vec::new();
    let mut i: usize = 0;
    while i < layers.len()
        invariant
            i <= layers.len(),
            all == layers.deep_view(),
            tables.len() == layers.len(),
            forall|k: int|
                0 <= k < layers.len() ==> is_weight_table(
                    #[trigger] layers.deep_view()[k],
                    tables[k].0@,
                    tables[k].1,
                ),
            draws_fit(all, draws@),
            combination.deep_view() == selection(all.take(i as int), draws@.take(i as int)),
        decreases layers.len() - i,
    {
        let layer = &layers[i];
        let ghost options = all[i as int];
        proof {
            assert(all.take(i + 1).drop_last() == all.take(i as int));
            assert(draws@.take(i + 1).drop_last() == draws@.take(i as int));
        }
        if layer.len() > 0 {
            let total = tables[i].1;
            let draw = draws[i];
            let index: usize = if total == 0 {
                draw as usize
            } else {
                proof {
                    lemma_weight_table_shape(options, tables[i as int].0@, total);
                }
                let found = weighted_index(tables[i].0.as_slice(), draw);
                proof {
                    assert(tables[i as int].0@ =~= table_of(options));
                    lemma_selects_first_above(table_of(options), draw, found as int, 0);
                }
                found
            };
            combination.push(layer[index].clone());
        }
        i += 1;
    }
    assert(all.take(layers.len() as int) == all);
    assert(draws@.take(layers.len() as int) == draws@);
    combination
}

/// Draws one combination at random: for every layer that has options, one
/// number below the bound of the layer.
pub fn draw_combination(layers: &Vec<Vec<String>>, tables: &Vec<(Vec<u64>, u64)>) -> (combination:
    Vec<String>)
    requires
        tables.len() == layers.len(),
        forall|i: int|
            0 <= i < layers.len() ==> is_weight_table(
                #[trigger] layers.deep_view()[i],
                tables[i].0@,
                tables[i].1,
            ),
    ensures
        exists|draws: Seq<u64>|
            draws_fit(layers.deep_view(), draws) && combination.deep_view() == selection(
                layers.deep_view(),
                draws,
            ),
        is_selection(layers.deep_view(), combination.deep_view()),
{
    let ghost all = layers.deep_view();
    let mut draws: Vec<u64> = Vec::new();
    let mut i: usize = 0;
    while i < layers.len()
        invariant
            i <= layers.len(),
            all == layers.deep_view(),
            tables.len() == layers.len(),
            forall|k: int|
                0 <= k < layers.len() ==> is_weight_table(
                    #[trigger] layers.deep_view()[k],
                    tables[k].0@,
                    tables[k].1,
                ),
            draws.len() == i,
            forall|k: int|
                0 <= k < i && all[k].len() > 0 ==> (draws[k] as nat) < draw_bound(all[k]),
        decreases layers.len() - i,
    {
        let draw: u64 = if layers[i].len() == 0 {
            0
        } else if tables[i].1 == 0 {
            draw_below(layers[i].len() as u64)
        } else {
            draw_below(tables[i].1)
        };
        draws.push(draw);
        i += 1;
    }
    proof {
        lemma_selection_is_selection(all, draws@);
    }
    combination_for_draws(layers, tables, &draws)
}

/// How many draws are spent on every combination that is asked for before
/// the drawing stops.
pub const ATTEMPTS_PER_COMBINATION: u64 = 10000;

/// Generates `total_supply` different combinations of the layers.
///
/// Before anything is drawn the number is held against the most that the
/// layers can yield; where it is more, the failure names that most. Else
/// combinations are drawn until enough different ones are there. The draws
/// are counted, and after `ATTEMPTS_PER_COMBINATION` draws for every
/// combination asked for the generator gives up; the failure then names how
/// many it has got.
pub fn generate_permutations(layers: &Vec<Vec<String>>, total_supply: usize) -> (result: Result<
    HashMap<u64, Vec<String>>,
    CustomError,
>)
    ensures
        match result {
            Ok(set) => {
                &&& set@.len() == total_supply
                &&& is_combination_set(layers.deep_view(), set@)
                &&& pairwise_distinct(set@)
            },
            Err(error) => {
                &&& error@ matches Failure::InvalidTotalSupply(wanted, reached)
                &&& wanted == total_supply
                &&& reached < total_supply
                &&& total_supply > size_ceiling(layers.deep_view()) ==> reached == size_ceiling(
                    layers.deep_view(),
                )
            },
        },
        total_supply > size_ceiling(layers.deep_view()) ==> result is Err,
        total_supply == 0 ==> result is Ok,
{
    let mut set = CombinationSet::new();
    match set.extend(layers, total_supply) {
        Ok(_) => {
            let map = set.into_map();
            proof {
                lemma_fingerprints_separate(layers.deep_view(), map@);
            }
            Ok(map)
        },
        Err(error) => Err(error),
    }
}

} // verus!
