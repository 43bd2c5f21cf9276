use std::collections::HashSet;
use trait_combinations::engine::{check_percentages, check_total_supply, generate_collection};
use trait_combinations::error::CustomError;
use trait_combinations::forced::{ForcedCombinations, ForcedCombo, Layer};
use trait_combinations::generate::fingerprint;

fn strings(items: &[&str]) -> Vec<String> {
    items.iter().map(|s| s.to_string()).collect()
}

fn rule_on(folder: &str, value: &str, percentage: u8) -> ForcedCombinations {
    ForcedCombinations {
        combo: vec![ForcedCombo {
            layer: Layer::Simple(folder.to_string()),
            value: value.to_string(),
        }],
        percentage,
    }
}

fn sample_layers() -> Vec<Vec<String>> {
    vec![
        strings(&[
            "./images/Face/Smile#10.png",
            "./images/Face/Frown#10.png",
            "./images/Face/Wink#10.png",
        ]),
        strings(&["./images/Body/Tall#5.png", "./images/Body/Short#5.png"]),
        strings(&[
            "./images/Hat/Cap#1.png",
            "./images/Hat/Crown#1.png",
            "./images/Hat/None#1.png",
        ]),
    ]
}

#[test]
fn run_without_rules_yields_every_combination() {
    let layers = vec![
        strings(&["a", "b", "c"]),
        strings(&["1", "2"]),
        strings(&["x", "y", "z"]),
    ];
    let rules: Vec<ForcedCombinations> = Vec::new();
    let set = generate_collection(&layers, &rules, 18, None, "images").unwrap();
    assert_eq!(set.len(), 18);
    let mut seen: HashSet<Vec<String>> = HashSet::new();
    for (key, combination) in set.iter() {
        assert_eq!(combination.len(), 3);
        assert_eq!(*key, fingerprint(combination));
        assert!(seen.insert(combination.clone()));
    }
}

#[test]
fn run_with_a_rule_serves_its_quota() {
    let layers = sample_layers();
    let rules = vec![rule_on("Face", "Smile", 50)];
    let set = generate_collection(&layers, &rules, 10, None, "images").unwrap();
    assert_eq!(set.len(), 10);
    let smiling = set
        .values()
        .filter(|combination| combination[0] == "./images/Face/Smile#10.png")
        .count();
    // the rule draws 5 with its value, the rest is drawn from what the rule leaves
    assert_eq!(smiling, 5);
    for combination in set.values() {
        assert_eq!(combination.len(), 3);
        assert!(layers[0].contains(&combination[0]));
        assert!(layers[1].contains(&combination[1]));
        assert!(layers[2].contains(&combination[2]));
    }
    let distinct: HashSet<&Vec<String>> = set.values().collect();
    assert_eq!(distinct.len(), 10);
}

#[test]
fn run_with_two_rules() {
    let layers = sample_layers();
    let rules = vec![rule_on("Face", "Smile", 30), rule_on("Face", "Wink", 30)];
    let set = generate_collection(&layers, &rules, 10, None, "images").unwrap();
    assert_eq!(set.len(), 10);
    let count_of = |name: &str| set.values().filter(|c| c[0] == name).count();
    // what remains after both rules is what the second rule has left
    assert_eq!(count_of("./images/Face/Wink#10.png"), 3);
    assert_eq!(
        count_of("./images/Face/Smile#10.png") + count_of("./images/Face/Frown#10.png"),
        7
    );
    assert!(count_of("./images/Face/Smile#10.png") >= 3);
}

#[test]
fn percentages_above_a_hundred_are_refused() {
    let layers = sample_layers();
    let rules = vec![rule_on("Face", "Smile", 60), rule_on("Face", "Wink", 41)];
    let result = generate_collection(&layers, &rules, 10, None, "images");
    match result {
        Err(CustomError::TotalPercentageExceeded(text)) => assert_eq!(
            text,
            "The sum of the percentages in the forced combinations exceeds 100%."
        ),
        _ => panic!("the percentages were not refused"),
    }
    assert!(check_percentages(&rules).is_err());
    let fine = vec![rule_on("Face", "Smile", 60), rule_on("Face", "Wink", 40)];
    assert!(check_percentages(&fine).is_ok());
    assert!(check_percentages(&Vec::new()).is_ok());
}

#[test]
fn number_above_the_ceiling_is_refused() {
    let layers = sample_layers();
    let rules: Vec<ForcedCombinations> = Vec::new();
    let result = generate_collection(&layers, &rules, 19, None, "images");
    assert_eq!(result.unwrap_err(), CustomError::InvalidTotalSupply(19, 18));
    // skipped options lower the ceiling
    let skipped = Some(strings(&["Crown"]));
    let result = generate_collection(&layers, &rules, 13, skipped, "images");
    assert_eq!(result.unwrap_err(), CustomError::InvalidTotalSupply(13, 12));
}

#[test]
fn quota_above_what_the_rule_takes_is_refused() {
    let layers = sample_layers();
    // the rule takes one face, so 1 * 2 * 3 combinations, and is asked for 9
    let rules = vec![rule_on("Face", "Smile", 90)];
    let result = generate_collection(&layers, &rules, 10, None, "images");
    assert_eq!(result.unwrap_err(), CustomError::InvalidTotalSupply(9, 6));
}

#[test]
fn total_supply_is_held_against_what_is_possible() {
    assert!(check_total_supply(18, 18).is_ok());
    assert!(check_total_supply(0, 0).is_ok());
    assert_eq!(
        check_total_supply(19, 18).unwrap_err(),
        CustomError::InvalidTotalSupply(19, 18)
    );
}
