use trait_combinations::weights::{
    calculate_weights_and_total, choose_image_with_precomputed_weights, option_for_draw,
    parse_weight, weighted_index,
};

fn strings(items: &[&str]) -> Vec<String> {
    items.iter().map(|s| s.to_string()).collect()
}

#[test]
fn test_calculate_weights_and_total() {
    let layer = vec![
        "image#100.png".to_string(),
        "image#25.png".to_string(),
        "image#50.png".to_string(),
        "image.png".to_string(),
    ];

    let (weights, total_weight) = calculate_weights_and_total(&layer);

    assert_eq!(weights, vec![100, 125, 175, 176]);
    assert_eq!(total_weight, 176);
}

#[test]
fn test_choose_image_with_precomputed_weights() {
    let layer = vec![
        "image#100.png".to_string(),
        "image#25.png".to_string(),
        "image#50.png".to_string(),
        "image.png".to_string(),
    ];

    let (weights, total_weight) = calculate_weights_and_total(&layer);

    let chosen_image = choose_image_with_precomputed_weights(&layer, &weights, total_weight);

    assert!(layer.contains(chosen_image));
}

#[test]
fn weight_of_a_single_marker() {
    assert_eq!(parse_weight("image#100.png"), 100);
    assert_eq!(parse_weight("./images/Face/Smile#7.png"), 7);
    assert_eq!(parse_weight("#0"), 0);
    assert_eq!(parse_weight("a#0042"), 42);
}

#[test]
fn weight_without_marker_is_one() {
    assert_eq!(parse_weight("image.png"), 1);
    assert_eq!(parse_weight(""), 1);
    assert_eq!(parse_weight("plain"), 1);
}

#[test]
fn weight_sums_all_markers() {
    assert_eq!(parse_weight("./images/Hair/Black#700/Style2#25.png"), 725);
    assert_eq!(parse_weight("a#1#2#3"), 6);
    assert_eq!(parse_weight("#5x#6"), 11);
}

#[test]
fn weight_passes_over_what_is_no_number() {
    assert_eq!(parse_weight("image#.png"), 1);
    assert_eq!(parse_weight("image#"), 1);
    assert_eq!(parse_weight("a#b#12"), 12);
    assert_eq!(parse_weight("##3"), 3);
    // one more than the largest 64-bit number is not read
    assert_eq!(parse_weight("a#18446744073709551616"), 1);
    assert_eq!(parse_weight("a#18446744073709551616#4"), 4);
    assert_eq!(parse_weight("a#18446744073709551615"), u64::MAX);
}

#[test]
fn weight_is_held_at_the_largest_number() {
    assert_eq!(parse_weight("a#18446744073709551615#1"), u64::MAX);
    let layer = strings(&["a#18446744073709551615", "b#5", "c"]);
    let (weights, total) = calculate_weights_and_total(&layer);
    assert_eq!(weights, vec![u64::MAX, u64::MAX, u64::MAX]);
    assert_eq!(total, u64::MAX);
}

#[test]
fn table_of_an_empty_layer() {
    let layer: Vec<String> = Vec::new();
    let (weights, total) = calculate_weights_and_total(&layer);
    assert!(weights.is_empty());
    assert_eq!(total, 0);
}

#[test]
fn table_is_the_same_on_every_call() {
    let layer = strings(&["x#3", "y", "z#10"]);
    let first = calculate_weights_and_total(&layer);
    let second = calculate_weights_and_total(&layer);
    assert_eq!(first, second);
    assert_eq!(first.0, vec![3, 4, 14]);
    assert_eq!(first.1, 14);
}

#[test]
fn draw_falls_on_first_entry_above_it() {
    let table: Vec<u64> = vec![100, 125, 175, 176];
    assert_eq!(weighted_index(&table, 0), 0);
    assert_eq!(weighted_index(&table, 99), 0);
    assert_eq!(weighted_index(&table, 100), 1);
    assert_eq!(weighted_index(&table, 124), 1);
    assert_eq!(weighted_index(&table, 125), 2);
    assert_eq!(weighted_index(&table, 174), 2);
    assert_eq!(weighted_index(&table, 175), 3);
}

#[test]
fn every_option_gets_as_many_draws_as_its_weight() {
    let layer = strings(&["a#100", "b#25", "c#50", "d", "e#0"]);
    let (weights, total) = calculate_weights_and_total(&layer);
    assert_eq!(total, 176);
    let mut counts = [0u64; 5];
    for draw in 0..total {
        counts[weighted_index(&weights, draw)] += 1;
    }
    assert_eq!(counts, [100, 25, 50, 1, 0]);
}

#[test]
fn draw_on_equal_entries_takes_the_first() {
    let table: Vec<u64> = vec![5, 5, 5, 9];
    assert_eq!(weighted_index(&table, 4), 0);
    assert_eq!(weighted_index(&table, 5), 3);
    let single: Vec<u64> = vec![1];
    assert_eq!(weighted_index(&single, 0), 0);
}

#[test]
fn option_for_a_given_draw() {
    let layer = strings(&["a#100", "b#25", "c#50", "d"]);
    let (weights, _) = calculate_weights_and_total(&layer);
    assert_eq!(option_for_draw(&layer, &weights, 0), "a#100");
    assert_eq!(option_for_draw(&layer, &weights, 110), "b#25");
    assert_eq!(option_for_draw(&layer, &weights, 174), "c#50");
    assert_eq!(option_for_draw(&layer, &weights, 175), "d");
}

#[test]
fn weighted_choice_follows_the_weights() {
    let layer = strings(&["a#600", "b#300", "c#100"]);
    let (weights, total) = calculate_weights_and_total(&layer);
    assert_eq!(total, 1000);
    let trials = 20000;
    let mut counts = [0usize; 3];
    for _ in 0..trials {
        let chosen = choose_image_with_precomputed_weights(&layer, &weights, total);
        let index = layer.iter().position(|o| o == chosen).unwrap();
        counts[index] += 1;
    }
    let share = |count: usize| count as f64 / trials as f64;
    assert!((share(counts[0]) - 0.6).abs() < 0.05);
    assert!((share(counts[1]) - 0.3).abs() < 0.05);
    assert!((share(counts[2]) - 0.1).abs() < 0.05);
}
