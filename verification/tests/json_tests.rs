use search_feat::json::results_to_json;
use search_feat::search_files;
use search_feat::search_files_json;
use search_feat::FileResult;

#[test]
fn test_results_to_json_exact() {
    assert_eq!(results_to_json(&Vec::new()), "[]");

    let one = vec![FileResult {
        full_file_name: "a.txt".to_string(),
        path: "/tmp/x".to_string(),
    }];
    assert_eq!(
        results_to_json(&one),
        "[{\"full_file_name\":\"a.txt\",\"path\":\"/tmp/x\"}]"
    );

    let two = vec![
        FileResult {
            full_file_name: "a.txt".to_string(),
            path: "/x".to_string(),
        },
        FileResult {
            full_file_name: "b.rs".to_string(),
            path: "/y".to_string(),
        },
    ];
    assert_eq!(
        results_to_json(&two),
        "[{\"full_file_name\":\"a.txt\",\"path\":\"/x\"},{\"full_file_name\":\"b.rs\",\"path\":\"/y\"}]"
    );
}

#[test]
fn test_json_escaping_exact() {
    let odd = vec![FileResult {
        full_file_name: "we\"ird\\name\n.txt".to_string(),
        path: "/p".to_string(),
    }];
    let s = results_to_json(&odd);
    assert_eq!(
        s,
        "[{\"full_file_name\":\"we\\\"ird\\\\name\\u000a.txt\",\"path\":\"/p\"}]"
    );

    // The escaped form parses back to the original characters.
    let v: serde_json::Value = serde_json::from_str(&s).unwrap();
    assert_eq!(
        v[0]["full_file_name"].as_str().unwrap(),
        "we\"ird\\name\n.txt"
    );
}

#[test]
fn test_search_files_json_parses_back_to_same_set() {
    let temp_dir = tempfile::TempDir::new().unwrap();
    let names = ["test.txt", "example.rs", "test_file.json", "another.txt"];
    for name in names.iter() {
        fs_err::write(temp_dir.path().join(name), "test content").unwrap();
    }
    let d = temp_dir.path().to_str().unwrap();

    let json = search_files_json("test", d).unwrap();
    let v: serde_json::Value = serde_json::from_str(&json).unwrap();
    let arr = v.as_array().unwrap();
    let mut parsed: Vec<(String, String)> = arr
        .iter()
        .map(|o| {
            (
                o["full_file_name"].as_str().unwrap().to_string(),
                o["path"].as_str().unwrap().to_string(),
            )
        })
        .collect();
    parsed.sort();

    let mut direct: Vec<(String, String)> = search_files("test", d)
        .unwrap()
        .into_iter()
        .map(|r| (r.full_file_name, r.path))
        .collect();
    direct.sort();

    assert_eq!(parsed, direct);
    assert_eq!(parsed.len(), 2);
}

#[test]
fn test_search_files_json_errors() {
    let r = search_files_json("x", "/path/does/not/exist");
    assert_eq!(r.unwrap_err(), search_feat::SearchError::PathNotFound);
}

#[test]
fn test_search_files_json_empty_array() {
    let temp_dir = tempfile::TempDir::new().unwrap();
    let d = temp_dir.path().to_str().unwrap();
    assert_eq!(search_files_json("anything", d).unwrap(), "[]");
}
