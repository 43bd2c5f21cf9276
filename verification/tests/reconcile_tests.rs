use trait_combinations::error::CustomError;
use trait_combinations::reconcile::{compare_and_verify_traits, first_minimum};

fn strings(items: &[&str]) -> Vec<String> {
    items.iter().map(|s| s.to_string()).collect()
}

#[test]
fn test_compare_and_verify_traits() {
    let base_path = "./images";
    let vec1 = vec![
        "back_acc".to_string(),
        "background".to_string(),
        "body".to_string(),
        "face".to_string(),
        "front_acc".to_string(),
    ];
    let vec2 = vec![
        "back_acc".to_string(),
        "background".to_string(),
        "body".to_string(),
        "face".to_string(),
        "front_acc".to_string(),
    ];
    let vec3 = vec![
        "back_acc".to_string(),
        "coverall".to_string(),
        "face".to_string(),
        "front_acc".to_string(),
        "body".to_string(),
    ];
    let vec4 = vec![
        "back_acc".to_string(),
        "body".to_string(),
        "face".to_string(),
        "front_acc".to_string(),
    ];

    assert_eq!(
        compare_and_verify_traits::<String>(vec1.clone(), vec2.clone(), &base_path).unwrap(),
        vec2
    );

    assert!(compare_and_verify_traits::<String>(vec1.clone(), vec3.clone(), &base_path).is_err());

    assert!(compare_and_verify_traits::<String>(vec1.clone(), vec4.clone(), &base_path).is_err());
}

#[test]
fn found_names_come_back_in_the_configured_order() {
    let found = strings(&["face", "body", "background", "front_acc", "back_acc"]);
    let config = strings(&["background", "back_acc", "body", "face", "front_acc"]);
    assert_eq!(
        compare_and_verify_traits::<String>(found, config.clone(), "./images").unwrap(),
        config
    );
}

#[test]
fn different_lengths_are_refused() {
    let found = strings(&["a", "b", "c"]);
    let config = strings(&["a", "b"]);
    let result = compare_and_verify_traits::<String>(found, config, "");
    assert_eq!(
        result.unwrap_err(),
        CustomError::InvalidTrait("[traits_by_path: 3 traits_by_config: 2]".to_string())
    );
}

#[test]
fn different_names_are_refused() {
    let found = strings(&["a", "b", "c"]);
    let config = strings(&["a", "b", "d"]);
    let result = compare_and_verify_traits::<String>(found, config, "");
    assert_eq!(
        result.unwrap_err(),
        CustomError::InvalidTrait(
            "[traits_by_path and traits_by_config are different]".to_string()
        )
    );
}

#[test]
fn names_must_occur_as_often() {
    let found = strings(&["a", "a", "b"]);
    let config = strings(&["a", "b", "b"]);
    assert!(compare_and_verify_traits::<String>(found, config, "").is_err());
    let found = strings(&["a", "b", "a"]);
    let config = strings(&["a", "a", "b"]);
    assert!(compare_and_verify_traits::<String>(found, config, "").is_ok());
}

#[test]
fn suffix_of_a_found_name_is_not_held_against_the_configured() {
    let found = strings(&["body#2", "face#1"]);
    let config = strings(&["face", "body"]);
    assert_eq!(
        compare_and_verify_traits::<String>(found, config, "").unwrap(),
        strings(&["face#1", "body#2"])
    );
}

#[test]
fn names_that_go_to_one_place_keep_their_order() {
    let found = strings(&["x#2", "x#1"]);
    let config = strings(&["x", "x"]);
    assert_eq!(
        compare_and_verify_traits::<String>(found, config, "").unwrap(),
        strings(&["x#2", "x#1"])
    );
    // "ax#1" is as far from "ay1" as from "ax", and the first of them is taken
    let found = strings(&["ax#1", "ay1"]);
    let config = strings(&["ay1", "ax"]);
    assert_eq!(
        compare_and_verify_traits::<String>(found, config, "").unwrap(),
        strings(&["ax#1", "ay1"])
    );
}

#[test]
fn found_name_goes_to_the_nearest_configured_name() {
    let found = strings(&["ac#9", "aa#1", "ab"]);
    let config = strings(&["ab", "ac", "aa"]);
    assert_eq!(
        compare_and_verify_traits::<String>(found, config, "").unwrap(),
        strings(&["ab", "ac#9", "aa#1"])
    );
}

#[test]
fn base_path_is_taken_off_the_front() {
    // without the base in front, "xxab" is "ab" and goes to "ab"
    let found = strings(&["xxab", "ab"]);
    let config = strings(&["ab", "xxab"]);
    assert_eq!(
        compare_and_verify_traits::<String>(found.clone(), config.clone(), "x").unwrap(),
        strings(&["xxab", "ab"])
    );
    assert_eq!(
        compare_and_verify_traits::<String>(found, config, "").unwrap(),
        strings(&["ab", "xxab"])
    );
}

#[test]
fn empty_lists_reconcile() {
    let found: Vec<String> = Vec::new();
    let config: Vec<String> = Vec::new();
    assert_eq!(
        compare_and_verify_traits::<String>(found, config, "base").unwrap(),
        Vec::<String>::new()
    );
}

#[test]
fn first_minimum_is_the_first_of_the_least() {
    assert_eq!(first_minimum(&vec![3, 1, 2, 1]), 1);
    assert_eq!(first_minimum(&vec![0, 0, 0]), 0);
    assert_eq!(first_minimum(&vec![5]), 0);
    assert_eq!(first_minimum(&vec![usize::MAX, usize::MAX]), 0);
    assert_eq!(first_minimum(&vec![9, 8, 7]), 2);
    assert_eq!(first_minimum(&Vec::new()), 0);
}
