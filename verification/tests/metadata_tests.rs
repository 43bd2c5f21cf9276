use trait_combinations::metadata::{attribute_for_path, clean_name, has_image_extension};

#[test]
fn name_loses_markers_and_extension() {
    assert_eq!(clean_name("Style2#25.png"), "Style2");
    assert_eq!(clean_name("Black#700"), "Black");
    assert_eq!(clean_name("plain"), "plain");
    assert_eq!(clean_name("a#1b#22c"), "abc");
    assert_eq!(clean_name(""), "");
}

#[test]
fn name_keeps_what_is_no_marker_and_no_extension() {
    assert_eq!(clean_name("a#b"), "a#b");
    assert_eq!(clean_name("a#"), "a#");
    assert_eq!(clean_name("a."), "a.");
    assert_eq!(clean_name("a.b.png"), "a.b");
    assert_eq!(clean_name("a.p-g"), "a.p-g");
    assert_eq!(clean_name("x.#12"), "x.");
    // the extension is looked for in the name as it is written
    assert_eq!(clean_name("x.p#1ng"), "x.png");
    assert_eq!(clean_name("12#3.4"), "12");
}

#[test]
fn attribute_of_a_path() {
    let attribute = attribute_for_path("./images/Face/BasilSynth_V1#25.png").unwrap();
    assert_eq!(attribute.trait_type, "Face");
    assert_eq!(attribute.value, "BasilSynth_V1");
    let attribute = attribute_for_path("./images/Hair/Black#700/Style2#25.png").unwrap();
    assert_eq!(attribute.trait_type, "Hair");
    assert_eq!(attribute.value, "Style2");
    let attribute = attribute_for_path("a/b/c#1.png").unwrap();
    assert_eq!(attribute.trait_type, "c");
    assert_eq!(attribute.value, "c");
}

#[test]
fn short_path_has_no_attribute() {
    assert!(attribute_for_path("Face/X.png").is_none());
    assert!(attribute_for_path("X.png").is_none());
    assert!(attribute_for_path("").is_none());
}

#[test]
fn image_is_told_by_its_extension() {
    assert!(has_image_extension("dir/file1.png"));
    assert!(has_image_extension("file1.PNG"));
    assert!(has_image_extension("a.b/c.d.PnG"));
    assert!(!has_image_extension("dir/file2.jpg"));
    assert!(!has_image_extension("dir/file3.jpeg"));
    assert!(!has_image_extension("dir/file4.txt"));
    assert!(!has_image_extension("dir/png"));
    assert!(!has_image_extension("dir/.png"));
    assert!(!has_image_extension("dir.png/file"));
    assert!(!has_image_extension("file.pngx"));
    assert!(!has_image_extension("file.png/"));
    assert!(!has_image_extension(""));
}
