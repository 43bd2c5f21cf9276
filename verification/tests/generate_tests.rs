use std::collections::hash_map::DefaultHasher;
use std::collections::HashSet;
use std::hash::{Hash, Hasher};
use trait_combinations::error::CustomError;
use trait_combinations::feasibility::get_permutations;
use trait_combinations::generate::{
    combination_for_draws, draw_combination, fingerprint, generate_permutations, CombinationSet,
};
use trait_combinations::weights::calculate_weights_and_total;

fn strings(items: &[&str]) -> Vec<String> {
    items.iter().map(|s| s.to_string()).collect()
}

fn tables_of(layers: &Vec<Vec<String>>) -> Vec<(Vec<u64>, u64)> {
    layers.iter().map(|layer| calculate_weights_and_total(layer)).collect()
}

#[test]
fn test_generate_permutations() {
    let layers = vec![
        (vec!["a".to_string(), "b".to_string(), "c".to_string()]),
        (vec!["1".to_string(), "2".to_string()]),
        (vec!["x".to_string(), "y".to_string(), "z".to_string()]),
    ];
    let total_supply = 18;
    let permutations = generate_permutations(&layers, total_supply).unwrap();

    assert_eq!(permutations.len(), total_supply);

    for combination in permutations.values() {
        assert_eq!(combination.len(), layers.len());
    }

    let mut hash_set = HashSet::new();
    for combination in permutations.values() {
        let mut hasher = DefaultHasher::new();
        combination.hash(&mut hasher);
        let hash = hasher.finish();
        assert!(!hash_set.contains(&hash));
        hash_set.insert(hash);
    }
}

#[test]
fn all_combinations_of_three_layers() {
    let layers = vec![
        strings(&["a", "b", "c"]),
        strings(&["1", "2"]),
        strings(&["x", "y", "z"]),
    ];
    assert_eq!(get_permutations(&layers, None), Some(18));
    let set = generate_permutations(&layers, 18).unwrap();
    assert_eq!(set.len(), 18);
    let mut seen: HashSet<Vec<String>> = HashSet::new();
    for (key, combination) in set.iter() {
        assert_eq!(combination.len(), 3);
        assert!(layers[0].contains(&combination[0]));
        assert!(layers[1].contains(&combination[1]));
        assert!(layers[2].contains(&combination[2]));
        assert_eq!(*key, fingerprint(combination));
        assert!(seen.insert(combination.clone()));
    }
    assert_eq!(seen.len(), 18);
}

#[test]
fn fewer_than_the_ceiling() {
    let layers = vec![strings(&["a#5", "b", "c#2"]), strings(&["1", "2#9"])];
    let set = generate_permutations(&layers, 4).unwrap();
    assert_eq!(set.len(), 4);
    let distinct: HashSet<&Vec<String>> = set.values().collect();
    assert_eq!(distinct.len(), 4);
}

#[test]
fn more_than_the_ceiling_is_refused_before_any_draw() {
    let layers = vec![strings(&["a", "b"]), strings(&["1", "2", "3"])];
    let result = generate_permutations(&layers, 7);
    assert_eq!(result.unwrap_err(), CustomError::InvalidTotalSupply(7, 6));
}

#[test]
fn nothing_asked_for_gives_nothing() {
    let layers = vec![strings(&["a", "b"])];
    assert!(generate_permutations(&layers, 0).unwrap().is_empty());
    let none: Vec<Vec<String>> = Vec::new();
    assert!(generate_permutations(&none, 0).unwrap().is_empty());
    assert_eq!(generate_permutations(&none, 1).unwrap().len(), 1);
}

#[test]
fn empty_layer_adds_nothing_to_a_combination() {
    let layers = vec![strings(&["a", "b"]), Vec::new(), strings(&["x"])];
    let set = generate_permutations(&layers, 2).unwrap();
    assert_eq!(set.len(), 2);
    for combination in set.values() {
        assert_eq!(combination.len(), 2);
        assert!(layers[0].contains(&combination[0]));
        assert_eq!(combination[1], "x");
    }
}

#[test]
fn layer_of_weight_zero_is_drawn_evenly() {
    let layers = vec![strings(&["a#0", "b#0", "c#0"])];
    let set = generate_permutations(&layers, 3).unwrap();
    assert_eq!(set.len(), 3);
}

#[test]
fn equal_options_cannot_fill_the_number() {
    // two options of one name yield one combination only
    let layers = vec![strings(&["a", "a"])];
    let result = generate_permutations(&layers, 2);
    assert_eq!(result.unwrap_err(), CustomError::InvalidTotalSupply(2, 1));
}

#[test]
fn combination_picked_by_given_draws() {
    let layers = vec![
        strings(&["a#100", "b#25", "c#50", "d"]),
        Vec::new(),
        strings(&["x#0", "y#0"]),
    ];
    let tables = tables_of(&layers);
    assert_eq!(
        combination_for_draws(&layers, &tables, &vec![0, 0, 1]),
        strings(&["a#100", "y#0"])
    );
    assert_eq!(
        combination_for_draws(&layers, &tables, &vec![100, 7, 0]),
        strings(&["b#25", "x#0"])
    );
    assert_eq!(
        combination_for_draws(&layers, &tables, &vec![175, 0, 0]),
        strings(&["d", "x#0"])
    );
}

#[test]
fn drawn_combination_is_a_selection() {
    let layers = vec![strings(&["a#3", "b"]), Vec::new(), strings(&["x", "y#4", "z"])];
    let tables = tables_of(&layers);
    for _ in 0..200 {
        let combination = draw_combination(&layers, &tables);
        assert_eq!(combination.len(), 2);
        assert!(layers[0].contains(&combination[0]));
        assert!(layers[2].contains(&combination[1]));
    }
}

#[test]
fn fingerprint_tells_combinations_apart() {
    let first = fingerprint(&strings(&["ab", "c"]));
    let second = fingerprint(&strings(&["a", "bc"]));
    let third = fingerprint(&strings(&["ab", "c"]));
    assert_eq!(first, third);
    assert_ne!(first, second);
    assert_ne!(fingerprint(&strings(&["a", "b"])), fingerprint(&strings(&["b", "a"])));
    assert_ne!(fingerprint(&Vec::new()), fingerprint(&strings(&[""])));
}

#[test]
fn set_turns_away_what_it_holds() {
    let mut set = CombinationSet::new();
    assert_eq!(set.len(), 0);
    assert!(set.insert(strings(&["a", "1"])));
    assert!(set.insert(strings(&["a", "2"])));
    assert!(!set.insert(strings(&["a", "1"])));
    assert_eq!(set.len(), 2);
    let map = set.into_map();
    assert_eq!(map.len(), 2);
    assert_eq!(map[&fingerprint(&strings(&["a", "1"]))], strings(&["a", "1"]));
    assert_eq!(map[&fingerprint(&strings(&["a", "2"]))], strings(&["a", "2"]));
}

#[test]
fn set_grows_by_what_is_asked_for() {
    let layers = vec![strings(&["a", "b", "c"]), strings(&["1", "2"])];
    let mut set = CombinationSet::new();
    assert!(set.insert(strings(&["a", "1"])));
    assert!(set.extend(&layers, 3).is_ok());
    assert_eq!(set.len(), 4);
    assert!(set.extend(&layers, 2).is_ok());
    assert_eq!(set.len(), 6);
    // all six are in the set now, and one more cannot be found
    assert_eq!(
        set.extend(&layers, 1).unwrap_err(),
        CustomError::InvalidTotalSupply(1, 0)
    );
    assert_eq!(
        set.extend(&layers, 7).unwrap_err(),
        CustomError::InvalidTotalSupply(7, 6)
    );
    assert_eq!(set.len(), 6);
    assert!(set.extend(&layers, 0).is_ok());
}
