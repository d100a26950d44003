use nflz::{
    filename_is_valid, get_filename_prefix_and_suffix,
    get_number_group_indices_from_actual_filename, FileInfo, NFLZError, ParsedFilename,
};

#[test]
fn parse_test_get_number_group_indices_from_actual_filename() {
    let input1 = "img (100)";
    let input2 = "img (1) (100)";
    let input3 = "img (1) 100)";

    let actual1 = get_number_group_indices_from_actual_filename(input1).unwrap();
    assert_eq!(
        5, actual1.0,
        "Number parentheses group starts at index 4 (inclusive)"
    );
    assert_eq!(
        8, actual1.1,
        "Number parentheses group ends at index 9 (exclusive)"
    );

    let actual2 = get_number_group_indices_from_actual_filename(input2);
    assert!(actual2.is_err());

    let actual3 = get_number_group_indices_from_actual_filename(input3).unwrap();
    assert_eq!(
        5, actual3.0,
        "Number parentheses group starts at index 4 (inclusive)"
    );
    assert_eq!(
        6, actual3.1,
        "Number parentheses group ends at index 9 (exclusive)"
    );
}

#[test]
fn file_info_test_get_number_group_indices_from_actual_filename() {
    let input1 = "img (100)";
    let input2 = "img (1) (100)";
    let input3 = "img (1) 100)";

    let actual1 = get_number_group_indices_from_actual_filename(input1).unwrap();
    assert_eq!(
        5, actual1.0,
        "Number parentheses group starts at index 4 (inclusive)"
    );
    assert_eq!(
        8, actual1.1,
        "Number parentheses group ends at index 9 (exclusive)"
    );

    let actual2 = get_number_group_indices_from_actual_filename(input2);
    assert!(actual2.is_err());

    let actual3 = get_number_group_indices_from_actual_filename(input3).unwrap();
    assert_eq!(
        5, actual3.0,
        "Number parentheses group starts at index 4 (inclusive)"
    );
    assert_eq!(
        6, actual3.1,
        "Number parentheses group ends at index 9 (exclusive)"
    );
}

#[test]
fn parse_test_get_filename_prefix_and_suffix() {
    let input1 = "img (100).jpg";
    let indices1 = get_number_group_indices_from_actual_filename(input1).unwrap();
    let (prefix1, suffix1) = get_filename_prefix_and_suffix(input1, indices1);
    assert_eq!("img (", prefix1);
    assert_eq!(").jpg", suffix1);

    let input2 = "(100) foobar.png";
    let indices2 = get_number_group_indices_from_actual_filename(input2).unwrap();
    let (prefix2, suffix2) = get_filename_prefix_and_suffix(input2, indices2);
    assert_eq!("(", prefix2);
    assert_eq!(") foobar.png", suffix2);
}

#[test]
fn file_info_test_get_filename_prefix_and_suffix() {
    let input1 = "img (100).jpg";
    let indices1 = get_number_group_indices_from_actual_filename(input1).unwrap();
    let (prefix1, suffix1) = get_filename_prefix_and_suffix(input1, indices1);
    assert_eq!("img (", prefix1);
    assert_eq!(").jpg", suffix1);

    let input2 = "(100) foobar.png";
    let indices2 = get_number_group_indices_from_actual_filename(input2).unwrap();
    let (prefix2, suffix2) = get_filename_prefix_and_suffix(input2, indices2);
    assert_eq!("(", prefix2);
    assert_eq!(") foobar.png", suffix2);
}

#[test]
fn test_struct_parsed_filename() {
    let filename1 = "paris (100).png";
    let parsed = ParsedFilename::new(filename1.to_owned()).expect("Must be valid");
    assert_eq!((7, 10), parsed.number_group_indices());
    assert_eq!("paris (", parsed.filename_prefix());
    assert_eq!(").png", parsed.filename_suffix());
    assert_eq!(100, parsed.number_group_value());
}

#[test]
fn test_parsed_filename() {
    let p1 = ParsedFilename::new("img (1).png".to_string()).unwrap();
    let p1_same = ParsedFilename::new("img (1).png".to_string()).unwrap();
    let p2 = ParsedFilename::new("img (2).png".to_string()).unwrap();
    assert_eq!(
        p1, p1_same,
        "Two ParsedFilenames are equal if the point to the same original filename."
    );
    assert_ne!(
        p1, p2,
        "Two ParsedFilenames are equal if the point to the same original filename."
    );
    assert!(p1 < p2, "One ParsedFilename is smaller than the other if the number inside the filename is lower.");
}

fn reassembled(name: &str) -> String {
    let parsed = ParsedFilename::new(name.to_string()).unwrap();
    let (from, to) = parsed.number_group_indices();
    let digits = &parsed.original_filename()[from..to];
    format!("{}{}{}", parsed.filename_prefix(), digits, parsed.filename_suffix())
}

#[test]
fn prefix_digits_and_suffix_give_the_filename_back() {
    for name in [
        "paris (1).jpg",
        "(100) foobar.png",
        "img (0042)",
        "café (12) ünïcode.jpg",
        "(7)",
    ] {
        assert_eq!(reassembled(name), name);
    }
    let parsed = ParsedFilename::new("café (12) ü.jpg".to_string()).unwrap();
    assert_eq!(parsed.filename_prefix(), "café (");
    assert_eq!(parsed.filename_suffix(), ") ü.jpg");
    assert_eq!(parsed.number_group_indices(), (7, 9));
    assert_eq!(parsed.number_group_value(), 12);
}

#[test]
fn leading_zeroes_are_read_as_the_same_number() {
    let parsed = ParsedFilename::new("paris (007).jpg".to_string()).unwrap();
    assert_eq!(parsed.number_group_value(), 7);
    let zero = ParsedFilename::new("paris (0).jpg".to_string()).unwrap();
    assert_eq!(zero.number_group_value(), 0);
}

#[test]
fn a_name_without_a_number_group_is_refused() {
    for name in ["notes.txt", "img ().jpg", "img (1a).jpg", "img 12.jpg", "img (-1).jpg"] {
        match ParsedFilename::new(name.to_string()) {
            Err(NFLZError::NoNumberGroup(f)) => assert_eq!(f, name),
            other => panic!("unexpected result for {}: {:?}", name, other),
        }
    }
}

#[test]
fn a_name_with_two_number_groups_is_refused() {
    match ParsedFilename::new("invalid (100) (19231).jpg".to_string()) {
        Err(NFLZError::MultipleNumberGroups(f)) => assert_eq!(f, "invalid (100) (19231).jpg"),
        other => panic!("unexpected result: {:?}", other),
    }
    match get_number_group_indices_from_actual_filename("(1)(2)") {
        Err(NFLZError::MultipleNumberGroups(f)) => assert_eq!(f, "(1)(2)"),
        other => panic!("unexpected result: {:?}", other),
    }
}

#[test]
fn a_number_beyond_64_bits_is_refused() {
    let largest = ParsedFilename::new("img (18446744073709551615).jpg".to_string()).unwrap();
    assert_eq!(largest.number_group_value(), u64::MAX);
    match ParsedFilename::new("img (18446744073709551616).jpg".to_string()) {
        Err(NFLZError::ValueInNumberedGroupNotANumber(d)) => {
            assert_eq!(d, "18446744073709551616")
        }
        other => panic!("unexpected result: {:?}", other),
    }
}

#[test]
fn errors_name_their_file() {
    let e = ParsedFilename::new("notes.txt".to_string()).unwrap_err();
    assert_eq!(e.filename(), Some("notes.txt"));
    let e = ParsedFilename::new("a (1) (2)".to_string()).unwrap_err();
    assert_eq!(e.filename(), Some("a (1) (2)"));
    let e = NFLZError::RenameFailed("a (1)".to_string(), "a (01)".to_string(), "busy".to_string());
    assert_eq!(e.filename(), Some("a (1)"));
    let e = NFLZError::ConflictingFiles(vec!["a (01)".to_string()]);
    assert_eq!(e.filename(), None);
}

#[test]
fn filename_validity_needs_exactly_one_number_group() {
    assert!(filename_is_valid("paris (1).jpg"));
    assert!(!filename_is_valid("invalid (100) (19231).jpg"));
    assert!(!filename_is_valid("paris.jpg"));
    assert!(!filename_is_valid("paris (x).jpg"));
}

#[test]
fn file_info_takes_the_last_path_component() {
    let file = FileInfo::new("some/dir/paris (12).jpg").unwrap();
    assert_eq!(file.original_filename(), "paris (12).jpg");
    assert_eq!(file.path(), "some/dir/paris (12).jpg");
    assert_eq!(file.filename_prefix(), "paris (");
    assert_eq!(file.filename_suffix(), ").jpg");
    assert_eq!(file.number_group_value(), 12);
    assert!(FileInfo::new("some (1)/dir").is_err());
    assert!(FileInfo::new("dir (1)/..").is_err());
}
