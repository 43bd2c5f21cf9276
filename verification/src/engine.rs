//! The whole run, from layers and rules to the set of combinations.
//!
//! The percentages of the rules are checked, then the number asked for is
//! held against the feasibility ceiling. After that the combinations are
//! drawn in stages: one stage for every rule, which draws the rule's quota
//! from the options that the rule takes, and a last stage, which draws what
//! is left of the number from the layers that remain after all rules.

use crate::error::{CustomError, Failure};
use crate::feasibility::{feasible_combinations, get_permutations, patterns_of};
use crate::forced::{
    lemma_percentage_sum_monotone, lemma_quotas_within_total, matched_layers, merge_remaining,
    merged, partition_layers, percentage_sum, quota, quota_of, quota_sum, unmatched_layers,
    ForcedCombinations,
};
use crate::generate::{
    combination_fingerprint, is_selection, pairwise_distinct, CombinationSet,
};
use std::collections::HashMap;
use vstd::prelude::*;
use vstd::set_lib::lemma_set_difference_len;
use vstd::string::StringExecFns;

verus! {

/// The layers that remain after the first `upto` rules.
pub open spec fn remaining_after(
    layers: Seq<Seq<Seq<char>>>,
    rules: Seq<ForcedCombinations>,
    base: Seq<char>,
    upto: int,
) -> Seq<Seq<Seq<char>>>
    decreases upto,
{
    if upto <= 0 {
        layers
    } else {
        merged(
            remaining_after(layers, rules, base, upto - 1),
            unmatched_layers(layers, rules[upto - 1]@.constraints, base),
        )
    }
}

/// The layers from which a stage draws: for the stage of a rule, what the
/// rule takes of every layer; for the last stage, the layers that remain
/// after all rules.
pub open spec fn stage_layers(
    layers: Seq<Seq<Seq<char>>>,
    rules: Seq<ForcedCombinations>,
    base: Seq<char>,
    stage: int,
) -> Seq<Seq<Seq<char>>> {
    if stage < rules.len() {
        matched_layers(layers, rules[stage]@.constraints, base)
    } else {
        remaining_after(layers, rules, base, rules.len() as int)
    }
}

/// How many combinations a stage draws: for the stage of a rule, its quota;
/// for the last stage, what the quotas leave of the whole.
pub open spec fn stage_quota(rules: Seq<ForcedCombinations>, total_supply: nat, stage: int) -> nat {
    if stage < rules.len() {
        quota_of(total_supply, rules[stage].percentage as nat)
    } else {
        (total_supply - quota_sum(rules, total_supply, rules.len() as int)) as nat
    }
}

/// Whether the first `count` of `stages` tell, for the keys of `set`, in
/// which stage each combination was drawn: the stages share no key, every
/// stage holds as many keys as its quota, and every combination is a
/// selection from the layers of its stage.
pub open spec fn stages_hold(
    set: Map<u64, Seq<Seq<char>>>,
    stages: Seq<Set<u64>>,
    count: int,
    layers: Seq<Seq<Seq<char>>>,
    rules: Seq<ForcedCombinations>,
    total_supply: nat,
    base: Seq<char>,
) -> bool {
    &&& stages.len() == count
    &&& forall|s: int|
        0 <= s < count ==> (#[trigger] stages[s]).finite() && stages[s].len() == stage_quota(
            rules,
            total_supply,
            s,
        )
    &&& forall|s: int, t: int| 0 <= s < t < count ==> stages[s].disjoint(stages[t])
    &&& forall|s: int, key: u64|
        0 <= s < count && #[trigger] stages[s].contains(key) ==> set.contains_key(key)
            && is_selection(stage_layers(layers, rules, base, s), set[key])
    &&& forall|key: u64|
        set.contains_key(key) ==> exists|s: int|
            0 <= s < count && #[trigger] stages[s].contains(key)
}

/// The combinations of a map, as plain values.
pub open spec fn combinations_of(map: Map<u64, Vec<String>>) -> Map<u64, Seq<Seq<char>>> {
    Map::new(|key: u64| map.contains_key(key), |key: u64| map[key].deep_view())
}

/// What a run has yielded when it ends well.
///
/// There are as many combinations as were asked for, each under its
/// fingerprint and no two the same, and they fall into stages, one for each
/// rule and one more, as `stages_hold` says.
pub open spec fn is_collection(
    map: Map<u64, Vec<String>>,
    layers: Seq<Seq<Seq<char>>>,
    rules: Seq<ForcedCombinations>,
    total_supply: nat,
    base: Seq<char>,
) -> bool {
    &&& map.len() == total_supply
    &&& forall|key: u64| #[trigger]
        map.contains_key(key) ==> key == combination_fingerprint(map[key].deep_view())
    &&& pairwise_distinct(map)
    &&& exists|stages: Seq<Set<u64>>| #[trigger]
        stages_hold(
            combinations_of(map),
            stages,
            (rules.len() + 1) as int,
            layers,
            rules,
            total_supply,
            base,
        )
}

/// The keys that a set has gained are as many as it has grown by.
proof fn lemma_new_keys(before: Map<u64, Seq<Seq<char>>>, after: Map<u64, Seq<Seq<char>>>)
    requires
        before.submap_of(after),
        after.dom().finite(),
    ensures
        before.dom().finite(),
        after.dom().difference(before.dom()).finite(),
        after.dom().difference(before.dom()).len() == after.len() - before.len(),
{
    assert(after.dom().intersect(before.dom()) =~= before.dom());
    vstd::set_lib::lemma_len_subset(before.dom(), after.dom());
    lemma_set_difference_len(after.dom(), before.dom());
}

/// A stage that has been drawn joins the stages before it: its keys are the
/// keys that the set has gained.
proof fn lemma_stage_drawn(
    before: Map<u64, Seq<Seq<char>>>,
    after: Map<u64, Seq<Seq<char>>>,
    stages: Seq<Set<u64>>,
    count: int,
    layers: Seq<Seq<Seq<char>>>,
    rules: Seq<ForcedCombinations>,
    total_supply: nat,
    base: Seq<char>,
)
    requires
        0 <= count,
        stages_hold(before, stages, count, layers, rules, total_supply, base),
        before.submap_of(after),
        after.dom().finite(),
        after.len() == before.len() + stage_quota(rules, total_supply, count),
        forall|key: u64|
            after.contains_key(key) && !before.contains_key(key) ==> is_selection(
                stage_layers(layers, rules, base, count),
                #[trigger] after[key],
            ),
    ensures
        stages_hold(
            after,
            stages.push(after.dom().difference(before.dom())),
            count + 1,
            layers,
            rules,
            total_supply,
            base,
        ),
{
    lemma_new_keys(before, after);
    let grown = stages.push(after.dom().difference(before.dom()));
    assert forall|s: int, t: int| 0 <= s < t < count + 1 implies grown[s].disjoint(grown[t]) by {
        if t < count {
            assert(stages[s].disjoint(stages[t]));
        }
    }
    assert forall|s: int, key: u64|
        0 <= s < count + 1 && #[trigger] grown[s].contains(key) implies after.contains_key(key)
        && is_selection(stage_layers(layers, rules, base, s), after[key]) by {
        if s < count {
            assert(stages[s].contains(key));
            assert(before.contains_key(key));
        }
    }
    assert forall|key: u64| after.contains_key(key) implies exists|s: int|
        0 <= s < count + 1 && #[trigger] grown[s].contains(key) by {
        if before.contains_key(key) {
            let s = choose|s: int| 0 <= s < count && #[trigger] stages[s].contains(key);
            assert(grown[s].contains(key));
        } else {
            assert(grown[count].contains(key));
        }
    }
    assert forall|s: int| 0 <= s < count + 1 implies (#[trigger] grown[s]).finite()
        && grown[s].len() == stage_quota(rules, total_supply, s) by {
        if s < count {
            assert(grown[s] == stages[s]);
        }
    }
}

/// Checks that the percentages of the rules add up to no more than 100.
pub fn check_percentages(rules: &Vec<ForcedCombinations>) -> (result: Result<(), CustomError>)
    ensures
        result is Ok <==> percentage_sum(rules@, rules.len() as int) <= 100,
        result matches Err(error) ==> error@ == Failure::TotalPercentageExceeded(
            "The sum of the percentages in the forced combinations exceeds 100%."@,
        ),
{
    let mut sum: u32 = 0;
    let mut i: usize = 0;
    while i < rules.len()
        invariant
            i <= rules.len(),
            sum <= 100,
            sum == percentage_sum(rules@, i as int),
        decreases rules.len() - i,
    {
        sum = sum + rules[i].percentage as u32;
        i += 1;
        if sum > 100 {
            proof {
                lemma_percentage_sum_monotone(rules@, i as int, rules.len() as int);
            }
            return Err(
                CustomError::TotalPercentageExceeded(
                    String::from_str(
                        "The sum of the percentages in the forced combinations exceeds 100%.",
                    ),
                ),
            );
        }
    }
    Ok(())
}

/// Checks that as many combinations as are asked for can be had.
pub fn check_total_supply(total_supply: u32, possible_permutations: usize) -> (result: Result<
    (),
    CustomError,
>)
    ensures
        result is Ok <==> total_supply <= possible_permutations,
        result matches Err(error) ==> error@ == Failure::InvalidTotalSupply(
            total_supply as nat,
            possible_permutations as nat,
        ),
{
    if possible_permutations < total_supply as usize {
        Err(CustomError::InvalidTotalSupply(total_supply as u64, possible_permutations as u64))
    } else {
        Ok(())
    }
}

/// A copy of a set of layers.
fn copy_layers(layers: &Vec<Vec<String>>) -> (copy: Vec<Vec<String>>)
    ensures
        copy.deep_view() == layers.deep_view(),
{
    let mut copy: Vec<Vec<String>> = Vec::new();
    let mut i: usize = 0;
    while i < layers.len()
        invariant
            i <= layers.len(),
            copy.deep_view() == layers.deep_view().take(i as int),
        decreases layers.len() - i,
    {
        let ghost before = copy.deep_view();
        let layer = crate::forced::copy_layer(&layers[i]);
        copy.push(layer);
        assert(copy.deep_view() == before.push(layers@[i as int].deep_view()));
        i += 1;
    }
    copy
}

/// Generates the combinations of a whole run.
///
/// `all_layers` are the options of every layer, in the configured order of
/// the layers; `forced_combinations` are the rules, in the order in which
/// they are served; `total_supply` is the number of combinations asked for;
/// `skipped_traits` are the patterns of the options that do not count for
/// the feasibility ceiling; `base_path` is the folder of the layer folders.
///
/// The run fails before anything is drawn where the percentages of the
/// rules add up to more than 100, and where the feasibility ceiling is known
/// and below `total_supply`. A stage fails where its quota is more than its
/// layers can yield, or where its draws run out.
pub fn generate_collection(
    all_layers: &Vec<Vec<String>>,
    forced_combinations: &Vec<ForcedCombinations>,
    total_supply: u32,
    skipped_traits: Option<Vec<String>>,
    base_path: &str,
) -> (result: Result<HashMap<u64, Vec<String>>, CustomError>)
    ensures
        match result {
            Ok(map) => is_collection(
                map@,
                all_layers.deep_view(),
                forced_combinations@,
                total_supply as nat,
                base_path@,
            ),
            Err(error) => if percentage_sum(
                forced_combinations@,
                forced_combinations.len() as int,
            ) > 100 {
                error@ == Failure::TotalPercentageExceeded(
                    "The sum of the percentages in the forced combinations exceeds 100%."@,
                )
            } else {
                error@ matches Failure::InvalidTotalSupply(wanted, reached) && reached < wanted
            },
        },
        percentage_sum(forced_combinations@, forced_combinations.len() as int) > 100 ==> result
            is Err,
        percentage_sum(forced_combinations@, forced_combinations.len() as int) <= 100
            && total_supply == 0 ==> result is Ok,
        percentage_sum(forced_combinations@, forced_combinations.len() as int) <= 100
            && patterns_of(skipped_traits).len() == 0 && total_supply > feasible_combinations(
            all_layers.deep_view(),
            patterns_of(skipped_traits),
        ) ==> result is Err && result->Err_0@ == Failure::InvalidTotalSupply(
            total_supply as nat,
            feasible_combinations(all_layers.deep_view(), patterns_of(skipped_traits)),
        ),
{
    let ghost layers = all_layers.deep_view();
    let ghost rules = forced_combinations@;
    let ghost total = total_supply as nat;
    match check_percentages(forced_combinations) {
        Ok(_) => {},
        Err(error) => {
            return Err(error);
        },
    }
    match get_permutations(all_layers, skipped_traits) {
        Some(possible) => {
            match check_total_supply(total_supply, possible) {
                Ok(_) => {},
                Err(error) => {
                    return Err(error);
                },
            }
        },
        None => {},
    }
    let mut set = CombinationSet::new();
    let mut remaining = copy_layers(all_layers);
    let mut rest: u32 = total_supply;
    let ghost mut stages: Seq<Set<u64>> = Seq::empty();
    let mut r: usize = 0;
    while r < forced_combinations.len()
        invariant
            r <= forced_combinations.len(),
            layers == all_layers.deep_view(),
            rules == forced_combinations@,
            total == total_supply as nat,
            percentage_sum(rules, rules.len() as int) <= 100,
            patterns_of(skipped_traits).len() == 0 ==> total <= feasible_combinations(
                layers,
                patterns_of(skipped_traits),
            ),
            set.wf(),
            remaining.deep_view() == remaining_after(layers, rules, base_path@, r as int),
            rest == total - quota_sum(rules, total, r as int),
            set@.len() == quota_sum(rules, total, r as int),
            stages_hold(set@, stages, r as int, layers, rules, total, base_path@),
        decreases forced_combinations.len() - r,
    {
        let rule = &forced_combinations[r];
        let (matched, unmatched) = partition_layers(rule.combo.as_slice(), all_layers, base_path);
        merge_remaining(&mut remaining, &unmatched);
        proof {
            lemma_percentage_sum_monotone(rules, r + 1, rules.len() as int);
            lemma_quotas_within_total(rules, total, r + 1);
        }
        let share = quota(total_supply, rule.percentage);
        rest = rest - share;
        let ghost before = set@;
        match set.extend(&matched, share as usize) {
            Ok(_) => {},
            Err(error) => {
                return Err(error);
            },
        }
        proof {
            lemma_stage_drawn(before, set@, stages, r as int, layers, rules, total, base_path@);
            stages = stages.push(set@.dom().difference(before.dom()));
        }
        r += 1;
    }
    proof {
        lemma_quotas_within_total(rules, total, rules.len() as int);
    }
    let ghost before = set@;
    match set.extend(&remaining, rest as usize) {
        Ok(_) => {},
        Err(error) => {
            return Err(error);
        },
    }
    let ghost held = set@;
    proof {
        lemma_stage_drawn(
            before,
            held,
            stages,
            rules.len() as int,
            layers,
            rules,
            total,
            base_path@,
        );
        stages = stages.push(held.dom().difference(before.dom()));
    }
    let map = set.into_map();
    assert(combinations_of(map@) =~= held);
    Ok(map)
}

} // verus!
