use search_feat::search_files;
use search_feat::SearchError;

fn make_tree(dir: &std::path::Path) {
    let names = ["test.txt", "example.rs", "test_file.json", "another.txt"];
    for name in names.iter() {
        fs_err::write(dir.join(name), "test content").unwrap();
    }
}

fn result_set(results: Vec<search_feat::FileResult>) -> Vec<(String, String)> {
    let mut pairs: Vec<(String, String)> = results
        .into_iter()
        .map(|r| (r.full_file_name, r.path))
        .collect();
    pairs.sort();
    pairs
}

#[test]
fn test_search_files() {
    let temp_dir = tempfile::TempDir::new().unwrap();
    make_tree(temp_dir.path());
    let results = search_files("test", temp_dir.path().to_str().unwrap()).unwrap();
    assert!(results.len() >= 2); // Should find test.txt and test_file.json
}

#[test]
fn test_search_exact_sets() {
    let temp_dir = tempfile::TempDir::new().unwrap();
    make_tree(temp_dir.path());
    let d = temp_dir.path().to_str().unwrap().to_string();

    let found = result_set(search_files("test", &d).unwrap());
    let mut expected = vec![
        ("test.txt".to_string(), d.clone()),
        ("test_file.json".to_string(), d.clone()),
    ];
    expected.sort();
    assert_eq!(found, expected);

    let found_rs = result_set(search_files("rs", &d).unwrap());
    assert_eq!(found_rs, vec![("example.rs".to_string(), d.clone())]);
}

#[test]
fn test_empty_term_matches_all() {
    let temp_dir = tempfile::TempDir::new().unwrap();
    make_tree(temp_dir.path());
    let d = temp_dir.path().to_str().unwrap().to_string();
    let found = result_set(search_files("", &d).unwrap());
    let mut expected = vec![
        ("another.txt".to_string(), d.clone()),
        ("example.rs".to_string(), d.clone()),
        ("test.txt".to_string(), d.clone()),
        ("test_file.json".to_string(), d.clone()),
    ];
    expected.sort();
    assert_eq!(found, expected);
}

#[test]
fn test_matching_is_case_insensitive() {
    let temp_dir = tempfile::TempDir::new().unwrap();
    make_tree(temp_dir.path());
    fs_err::write(temp_dir.path().join("LOUD_TEST.TXT"), "test content").unwrap();
    let d = temp_dir.path().to_str().unwrap().to_string();

    let found = result_set(search_files("TeSt", &d).unwrap());
    let mut expected = vec![
        ("LOUD_TEST.TXT".to_string(), d.clone()),
        ("test.txt".to_string(), d.clone()),
        ("test_file.json".to_string(), d.clone()),
    ];
    expected.sort();
    assert_eq!(found, expected);
}

#[test]
fn test_path_not_found() {
    let r = search_files("x", "/path/does/not/exist");
    assert_eq!(r.unwrap_err(), SearchError::PathNotFound);
}

#[test]
fn test_path_not_a_directory() {
    let temp_dir = tempfile::TempDir::new().unwrap();
    let file_path = temp_dir.path().join("plain.txt");
    fs_err::write(&file_path, "test content").unwrap();
    let r = search_files("x", file_path.to_str().unwrap());
    assert_eq!(r.unwrap_err(), SearchError::PathNotADirectory);
}

#[test]
fn test_idempotent_result_set() {
    let temp_dir = tempfile::TempDir::new().unwrap();
    make_tree(temp_dir.path());
    let d = temp_dir.path().to_str().unwrap();
    let first = result_set(search_files("t", d).unwrap());
    let second = result_set(search_files("t", d).unwrap());
    assert_eq!(first, second);
    assert!(!first.is_empty());
}

#[test]
fn test_directories_are_descended_not_reported() {
    let temp_dir = tempfile::TempDir::new().unwrap();
    let sub = temp_dir.path().join("testdir");
    fs_err::create_dir_all(&sub).unwrap();
    fs_err::write(sub.join("inner.txt"), "test content").unwrap();
    let d = temp_dir.path().to_str().unwrap().to_string();
    let s = sub.to_str().unwrap().to_string();

    // The directory's own name matches the term, but only files are reported.
    let found = result_set(search_files("test", &d).unwrap());
    assert_eq!(found, Vec::<(String, String)>::new());

    // A file in a subdirectory reports that subdirectory as its parent.
    let found_inner = result_set(search_files("inner", &d).unwrap());
    assert_eq!(found_inner, vec![("inner.txt".to_string(), s)]);
}

#[test]
fn test_file_name_matches_cases() {
    assert!(search_feat::file_name_matches("test", "test.txt"));
    assert!(search_feat::file_name_matches("test", "test_file.json"));
    assert!(!search_feat::file_name_matches("rs", "test_file.json"));
    assert!(search_feat::file_name_matches("RS", "example.rs"));
    assert!(search_feat::file_name_matches("", "anything at all"));
    assert!(!search_feat::file_name_matches("missing", "short"));
}
