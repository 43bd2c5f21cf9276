use trait_combinations::text::{
    chars_of, copy_range, decimal_text, first_index_of, piece_bounds, same_text, split_pieces,
    starts_with, strip_marker,
};

fn chars(text: &str) -> Vec<char> {
    text.chars().collect()
}

#[test]
fn characters_of_a_text() {
    assert_eq!(chars_of("a#1/é"), vec!['a', '#', '1', '/', 'é']);
    assert_eq!(chars_of(""), Vec::<char>::new());
}

#[test]
fn decimal_text_of_numbers() {
    assert_eq!(decimal_text(0), "0");
    assert_eq!(decimal_text(7), "7");
    assert_eq!(decimal_text(10), "10");
    assert_eq!(decimal_text(1234567890), "1234567890");
    assert_eq!(decimal_text(u64::MAX), "18446744073709551615");
}

#[test]
fn first_index_of_a_character() {
    let text = chars("ab/cd/e");
    assert_eq!(first_index_of(&text, '/', 0), 2);
    assert_eq!(first_index_of(&text, '/', 2), 2);
    assert_eq!(first_index_of(&text, '/', 3), 5);
    assert_eq!(first_index_of(&text, '/', 6), 7);
    assert_eq!(first_index_of(&text, '#', 0), 7);
    assert_eq!(first_index_of(&text, 'e', 7), 7);
}

#[test]
fn range_of_a_text() {
    let text = chars("abcdef");
    assert_eq!(copy_range(&text, 1, 4), chars("bcd"));
    assert_eq!(copy_range(&text, 0, 6), text);
    assert_eq!(copy_range(&text, 3, 3), chars(""));
}

#[test]
fn text_in_front_of_the_marker() {
    assert_eq!(strip_marker(&chars("body#2")), chars("body"));
    assert_eq!(strip_marker(&chars("a#1#2")), chars("a"));
    assert_eq!(strip_marker(&chars("#1")), chars(""));
    assert_eq!(strip_marker(&chars("plain")), chars("plain"));
}

#[test]
fn texts_are_held_against_each_other() {
    assert!(same_text(&chars("abc"), &chars("abc")));
    assert!(!same_text(&chars("abc"), &chars("abd")));
    assert!(!same_text(&chars("abc"), &chars("ab")));
    assert!(same_text(&chars(""), &chars("")));
    assert!(starts_with(&chars("abc"), &chars("ab")));
    assert!(starts_with(&chars("abc"), &chars("")));
    assert!(starts_with(&chars("abc"), &chars("abc")));
    assert!(!starts_with(&chars("abc"), &chars("abcd")));
    assert!(!starts_with(&chars("abc"), &chars("b")));
}

#[test]
fn path_is_cut_at_every_slash() {
    assert_eq!(
        split_pieces(&chars("./images/Face/X#1.png")),
        vec![chars("."), chars("images"), chars("Face"), chars("X#1.png")]
    );
    assert_eq!(split_pieces(&chars("")), vec![chars("")]);
    assert_eq!(split_pieces(&chars("/")), vec![chars(""), chars("")]);
    assert_eq!(
        split_pieces(&chars("a//b/")),
        vec![chars("a"), chars(""), chars("b"), chars("")]
    );
    assert_eq!(
        piece_bounds(&chars("ab//c")),
        vec![(0, 2), (3, 3), (4, 5)]
    );
}
