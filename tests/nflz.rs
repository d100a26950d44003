use nflz::{
    can_rename_all, check_distinct_prefixes_and_suffixes,
    check_no_destination_file_already_exists, check_suffixes_and_prefixes_are_unambiguous,
    compute_rename_map, files_to_nflz_file_info_vec, FileInfo, FileInfoWithRenameAdvice,
    NFLZAssistant, NFLZError, ParsedFilename,
};

const TEST_DIR_RT: &str = "./.test-resources";

fn test_resources() -> Vec<&'static str> {
    vec![
        "invalid (100) (19231).jpg",
        "paris (1).jpg",
        "paris (2).jpg",
        "paris (3).jpg",
        "paris (4).jpg",
        "paris (5).jpg",
        "paris (6).jpg",
        "paris (7).jpg",
        "paris (8).jpg",
        "paris (9).jpg",
        "paris (10).jpg",
        "paris (734).jpg",
    ]
}

fn paths_in(dir: &str, names: &[&str]) -> Vec<(String, String)> {
    names.iter().map(|n| (format!("{}/{}", dir, n), n.to_string())).collect()
}

fn strings(names: &[&str]) -> Vec<String> {
    names.iter().map(|n| n.to_string()).collect()
}

/// Plans the renames of the files of "test-resources" and checks the plan.
/// Applying it to the file system is left to the caller.
#[test]
fn test_nflz() {
    let names = test_resources();
    let assistant = NFLZAssistant::new(TEST_DIR_RT, paths_in(TEST_DIR_RT, &names));
    let files_to_rename = assistant.files_to_rename();
    let files_without_rename = assistant.files_without_rename();
    assert_eq!(
        files_without_rename.len() + files_to_rename.len(),
        11,
        "must skip file invalid file that doesn't match the pattern!"
    );

    let actual = files_to_rename
        .iter()
        .map(|f| f.new_filename().expect("must be available at this point"))
        .collect::<Vec<_>>();
    assert_eq!(
        [
            "paris (001).jpg",
            "paris (002).jpg",
            "paris (003).jpg",
            "paris (004).jpg",
            "paris (005).jpg",
            "paris (006).jpg",
            "paris (007).jpg",
            "paris (008).jpg",
            "paris (009).jpg",
            "paris (010).jpg",
        ],
        actual.as_slice()
    );

    let actual = files_without_rename
        .iter()
        .map(|f| f.file_info().original_filename())
        .collect::<Vec<_>>();
    assert_eq!(["paris (734).jpg"], actual.as_slice());

    assert!(assistant.check_can_rename_all(&strings(&names)).is_ok());
    assert_eq!(assistant.files().len(), 11);
}

#[test]
#[allow(non_snake_case)]
fn test_check_suffixes_or_prefixes_are_ambiguous__allow_different_font_casing() {
    let input = [
        FileInfoWithRenameAdvice::new(FileInfo::new("img (1).jpg").unwrap(), 1),
        FileInfoWithRenameAdvice::new(FileInfo::new("img (2).JPG").unwrap(), 1),
        FileInfoWithRenameAdvice::new(FileInfo::new("img (3).jpg").unwrap(), 1),
    ];

    check_suffixes_and_prefixes_are_unambiguous(&input)
        .expect("different font case for file type is allowed");

    let input = [
        FileInfoWithRenameAdvice::new(FileInfo::new("img (1).jpg").unwrap(), 1),
        FileInfoWithRenameAdvice::new(FileInfo::new("IMG (2).jpg").unwrap(), 1),
        FileInfoWithRenameAdvice::new(FileInfo::new("img (3).jpg").unwrap(), 1),
    ];

    check_suffixes_and_prefixes_are_unambiguous(&input).expect_err("must fail because different prefixes are used (only different font casing is also an error)");
}

#[test]
fn paris_directory_plan() {
    let names = test_resources();
    let assistant = NFLZAssistant::new("photos", paths_in("photos", &names));
    assert_eq!(assistant.max_digit_width(), 3);
    assert_eq!(assistant.path(), "photos");
    let entries = assistant.files();
    let originals: Vec<&str> = entries.iter().map(|e| e.file_info().original_filename()).collect();
    assert!(!originals.contains(&"invalid (100) (19231).jpg"));
    let values: Vec<u64> = entries.iter().map(|e| e.file_info().number_group_value()).collect();
    assert_eq!(values, vec![1, 2, 3, 4, 5, 6, 7, 8, 9, 10, 734]);
    assert_eq!(entries[0].new_filename(), Some("paris (001).jpg"));
    assert_eq!(entries[9].new_filename(), Some("paris (010).jpg"));
    assert_eq!(entries[10].new_filename(), None);
    assert!(entries[10].is_already_properly_named());
    assert!(entries[0].needs_rename());
    assert_eq!(
        entries[0].path_with_new_filename(),
        Some("photos/paris (001).jpg".to_string())
    );
    assert_eq!(entries[10].path_with_new_filename(), None);
    assert!(assistant.check_can_rename_all(&strings(&names)).is_ok());
}

#[test]
fn ambiguous_prefixes_are_refused() {
    let names = ["img (1).jpg", "IMG (2).jpg"];
    let assistant = NFLZAssistant::new("d", paths_in("d", &names));
    match assistant.check_can_rename_all(&strings(&names)) {
        Err(NFLZError::AmbiguousPrefixes(mut p)) => {
            p.sort();
            assert_eq!(p, vec!["IMG (".to_string(), "img (".to_string()]);
        }
        other => panic!("unexpected result: {:?}", other),
    }
}

#[test]
fn suffixes_that_only_differ_in_case_are_accepted() {
    let names = ["img (1).jpg", "img (2).JPG", "img (3).jpg"];
    let assistant = NFLZAssistant::new("d", paths_in("d", &names));
    assert!(assistant.check_can_rename_all(&strings(&names)).is_ok());
}

#[test]
fn other_suffixes_are_refused() {
    let names = ["img (1).jpg", "img (2).png"];
    let assistant = NFLZAssistant::new("d", paths_in("d", &names));
    match assistant.check_can_rename_all(&strings(&names)) {
        Err(NFLZError::AmbiguousSuffixes(mut s)) => {
            s.sort();
            assert_eq!(s, vec![").jpg".to_string(), ").png".to_string()]);
        }
        other => panic!("unexpected result: {:?}", other),
    }
    let names = ["img (1).jpg", "img (2).JPG", "img (3).Jpg"];
    let assistant = NFLZAssistant::new("d", paths_in("d", &names));
    match assistant.check_can_rename_all(&strings(&names)) {
        Err(NFLZError::AmbiguousSuffixes(s)) => assert_eq!(s.len(), 3),
        other => panic!("unexpected result: {:?}", other),
    }
}

#[test]
fn a_taken_new_name_is_a_conflict() {
    let names = ["paris (1).jpg", "paris (001).jpg", "paris (100).jpg"];
    let assistant = NFLZAssistant::new("d", paths_in("d", &names));
    assert_eq!(assistant.max_digit_width(), 3);
    let renamed: Vec<&str> = assistant
        .files_to_rename()
        .iter()
        .map(|e| e.file_info().original_filename())
        .collect();
    assert_eq!(renamed, vec!["paris (1).jpg"]);
    match assistant.check_can_rename_all(&strings(&names)) {
        Err(NFLZError::ConflictingFiles(c)) => {
            assert_eq!(c, vec!["paris (001).jpg".to_string()])
        }
        other => panic!("unexpected result: {:?}", other),
    }
}

#[test]
fn planning_again_after_renaming_changes_nothing() {
    let names = test_resources();
    let assistant = NFLZAssistant::new("d", paths_in("d", &names));
    let after: Vec<String> = assistant
        .files()
        .iter()
        .map(|e| match e.new_filename() {
            Some(n) => n.to_string(),
            None => e.file_info().original_filename().to_string(),
        })
        .collect();
    let after_refs: Vec<&str> = after.iter().map(|s| s.as_str()).collect();
    let again = NFLZAssistant::new("d", paths_in("d", &after_refs));
    assert_eq!(again.max_digit_width(), 3);
    assert!(again.files_to_rename().is_empty());
    assert_eq!(again.files_without_rename().len(), 11);
}

#[test]
fn an_empty_directory_has_an_empty_plan() {
    let assistant = NFLZAssistant::new("d", Vec::new());
    assert!(assistant.skipped_files().is_empty());
    assert_eq!(assistant.max_digit_width(), 0);
    assert!(assistant.files().is_empty());
    assert!(assistant.files_to_rename().is_empty());
    assert!(assistant.check_can_rename_all(&Vec::new()).is_ok());
}

#[test]
fn numbers_of_one_width_need_no_rename() {
    let names = ["a (10).jpg", "a (99).jpg", "a (42).jpg"];
    let assistant = NFLZAssistant::new("d", paths_in("d", &names));
    assert!(assistant.files_to_rename().is_empty());
    let order: Vec<u64> = assistant
        .files()
        .iter()
        .map(|e| e.file_info().number_group_value())
        .collect();
    assert_eq!(order, vec![10, 42, 99]);
}

#[test]
fn zero_is_padded_with_the_full_width() {
    let file = FileInfo::new("a (0).jpg").unwrap();
    let advice = FileInfoWithRenameAdvice::new(file, 2);
    assert_eq!(advice.new_filename(), Some("a (000).jpg"));
    let file = FileInfo::new("a (0).jpg").unwrap();
    let advice = FileInfoWithRenameAdvice::new(file, 0);
    assert_eq!(advice.new_filename(), None);
}

#[test]
fn too_many_leading_zeroes_are_trimmed() {
    let file = FileInfo::new("a (0007).jpg").unwrap();
    let advice = FileInfoWithRenameAdvice::new(file, 3);
    assert_eq!(advice.new_filename(), Some("a (007).jpg"));
}

#[test]
fn distinct_prefix_and_suffix_verdicts() {
    let one = vec!["img (".to_string()];
    let two = vec!["img (".to_string(), "IMG (".to_string()];
    let cased = vec![").jpg".to_string(), ").JPG".to_string()];
    let lowered = vec![").jpg".to_string(), ").jpg".to_string()];
    assert!(check_distinct_prefixes_and_suffixes(one.clone(), cased.clone(), &lowered).is_ok());
    match check_distinct_prefixes_and_suffixes(two.clone(), cased.clone(), &lowered) {
        Err(NFLZError::AmbiguousPrefixes(p)) => assert_eq!(p, two),
        other => panic!("unexpected result: {:?}", other),
    }
    match check_distinct_prefixes_and_suffixes(one.clone(), cased.clone(), &cased) {
        Err(NFLZError::AmbiguousSuffixes(s)) => assert_eq!(s, cased),
        other => panic!("unexpected result: {:?}", other),
    }
    assert!(check_distinct_prefixes_and_suffixes(one.clone(), vec![], &vec![]).is_ok());
}

#[test]
fn test_compute_rename_map() {
    let files: Vec<ParsedFilename> = test_resources()
        .iter()
        .filter_map(|n| ParsedFilename::new(n.to_string()).ok())
        .collect();
    let rn_map = compute_rename_map(&files);
    let get = |k: &str| rn_map.iter().find(|(o, _)| o == k).map(|(_, n)| n.clone());

    for i in 1..10 {
        let left_name = format!("paris (00{}).jpg", i);
        let right_name = format!("paris ({}).jpg", i);
        assert_eq!(left_name, get(&right_name).unwrap());

        assert_eq!("paris (010).jpg", get("paris (10).jpg").unwrap());
        // no rename necessary
        assert!(get("paris (734).jpg").is_none());
    }
    assert_eq!(rn_map.len(), 10);
    assert!(compute_rename_map(&Vec::new()).is_empty());
}

#[test]
fn test_can_rename_all() {
    let names = test_resources();
    let files: Vec<ParsedFilename> = names
        .iter()
        .filter_map(|n| ParsedFilename::new(n.to_string()).ok())
        .collect();
    let rn_map = compute_rename_map(&files);
    assert!(can_rename_all(&rn_map, &strings(&names)).is_ok());
    let mut taken = strings(&names);
    taken.push("paris (005).jpg".to_string());
    match can_rename_all(&rn_map, &taken) {
        Err(NFLZError::ConflictingFiles(c)) => assert_eq!(c, vec!["paris (005).jpg".to_string()]),
        other => panic!("unexpected result: {:?}", other),
    }
}

#[test]
fn files_compare_by_name_and_order_by_number() {
    let a = FileInfo::new("x/img (2).jpg").unwrap();
    let b = FileInfo::new("y/img (2).jpg").unwrap();
    let c = FileInfo::new("x/img (10).jpg").unwrap();
    assert_eq!(a, b);
    assert!(a < c);
    let a = FileInfoWithRenameAdvice::new(a, 2);
    let c = FileInfoWithRenameAdvice::new(c, 2);
    assert!(a < c);
    assert_ne!(a, c);
}

#[test]
fn the_scan_keeps_the_valid_files_and_names_the_others() {
    let names = test_resources();
    let (kept, skipped) = files_to_nflz_file_info_vec(paths_in("d", &names));
    assert_eq!(kept.len(), 11);
    assert!(kept.iter().all(|f| f.original_filename() != "invalid (100) (19231).jpg"));
    assert_eq!(kept[0].path(), "d/paris (1).jpg");
    assert_eq!(kept[0].original_filename(), "paris (1).jpg");
    assert_eq!(skipped.len(), 1);
    assert_eq!(skipped[0].0, "invalid (100) (19231).jpg");
    assert!(matches!(skipped[0].1, NFLZError::MultipleNumberGroups(_)));

    let listing = paths_in("d", &["notes.txt", "big (99999999999999999999).jpg", "a (1).jpg"]);
    let (kept, skipped) = files_to_nflz_file_info_vec(listing);
    assert_eq!(kept.len(), 1);
    assert_eq!(skipped.len(), 2);
    assert!(matches!(skipped[0].1, NFLZError::NoNumberGroup(_)));
    assert!(matches!(skipped[1].1, NFLZError::ValueInNumberedGroupNotANumber(_)));
}

#[test]
fn a_directory_where_nothing_parses_has_an_empty_plan() {
    let names = ["notes.txt", ".gitignore", "a (1) (2).jpg"];
    let assistant = NFLZAssistant::new("d", paths_in("d", &names));
    assert!(assistant.files().is_empty());
    assert_eq!(assistant.skipped_files().len(), 3);
    assert_eq!(assistant.max_digit_width(), 0);
}

#[test]
fn a_taken_new_name_is_a_conflict_for_the_check_itself() {
    let files = [
        FileInfoWithRenameAdvice::new(FileInfo::new("d/paris (1).jpg").unwrap(), 3),
        FileInfoWithRenameAdvice::new(FileInfo::new("d/paris (734).jpg").unwrap(), 3),
    ];
    let existing = strings(&["paris (1).jpg", "paris (001).jpg", "paris (734).jpg"]);
    match check_no_destination_file_already_exists(&files, &existing) {
        Err(NFLZError::ConflictingFiles(c)) => {
            assert_eq!(c, vec!["paris (001).jpg".to_string()])
        }
        other => panic!("unexpected result: {:?}", other),
    }
    assert!(check_no_destination_file_already_exists(&files, &strings(&["paris (1).jpg"])).is_ok());
}

#[test]
fn clones_keep_name_path_and_advice() {
    let advice = FileInfoWithRenameAdvice::new(FileInfo::new("d/a (7).jpg").unwrap(), 2);
    let copy = advice.clone();
    assert_eq!(copy.new_filename(), Some("a (07).jpg"));
    assert_eq!(copy.file_info().path(), "d/a (7).jpg");
    assert_eq!(copy, advice);
}
