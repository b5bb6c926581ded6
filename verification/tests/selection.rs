use hydration_client::selection::{
    applied, contains, mark_applied, read, validate, Problem, MAX_FOLDERS,
};

fn list(paths: &[&str]) -> Vec<String> {
    paths.iter().map(|p| p.to_string()).collect()
}

#[test]
fn exclusion_is_exact_root_relative_and_persists_without_touching_content() {
    let stored = Some(hydration_client::selection::write(&list(&["Docs", "Docs/nested", "a #b"])).unwrap());
    let paths = read(&stored).unwrap();
    assert_eq!(paths, vec!["Docs", "a #b"]);
    assert!(contains(&paths, "Docs/file"));
    assert!(!contains(&paths, "Other/Docs/file"));
    assert!(!contains(&paths, "Docs2/file"));
    for bad in [
        "",
        "../out",
        "/out",
        "Docs/../out",
        "Docs//child",
        "Docs/",
        "Docs\nchild",
    ] {
        assert!(hydration_client::selection::write(&list(&[bad])).is_err());
    }
    let marked = mark_applied(&None, &paths).unwrap();
    assert_eq!(applied(&marked).unwrap(), paths);
    let emptied = Some(hydration_client::selection::write(&list(&[])).unwrap());
    assert_ne!(
        read(&emptied).unwrap(),
        applied(&marked).unwrap(),
        "re-inclusion requires a fresh listing"
    );
}

#[test]
fn what_is_stored_is_json() {
    assert_eq!(hydration_client::selection::write(&list(&["a"])).unwrap(), b"[\"a\"]".to_vec());
    assert_eq!(read(&Some(b"[\"b\", \"a\"]".to_vec())).unwrap(), ["a", "b"]);
    assert_eq!(read(&None).unwrap(), Vec::<String>::new());
}

#[test]
fn what_is_not_a_list_is_malformed() {
    let why = read(&Some(b"{}".to_vec())).unwrap_err();
    assert!(matches!(why, Problem::Malformed(_)));
    assert_eq!(
        why.message(),
        "invalid type: map, expected a sequence at line 1 column 0"
    );
    assert!(matches!(
        applied(&Some(b"{}".to_vec())),
        Err(Problem::Malformed(e)) if e == why.message()
    ));
}

#[test]
fn a_choice_that_was_acted_on_is_not_written_again() {
    let paths = list(&["a"]);
    let first = mark_applied(&None, &paths).unwrap();
    assert_eq!(first, Some(b"[\"a\"]".to_vec()));
    assert_eq!(mark_applied(&first, &paths).unwrap(), None);
}

#[test]
fn each_limit_is_named() {
    let many: Vec<String> = (0..=MAX_FOLDERS).map(|i| format!("f{i:04}")).collect();
    assert_eq!(validate(&many), Err(Problem::TooMany));
    assert_eq!(validate(&many[1..].to_vec()).unwrap().len(), MAX_FOLDERS);
    assert_eq!(validate(&list(&["../x"])), Err(Problem::NotRelative));
    let large: Vec<String> = (0..20).map(|i| format!("{i:02}{}", "x".repeat(1000))).collect();
    assert_eq!(validate(&large), Err(Problem::TooLarge));
    assert_eq!(
        Problem::TooMany.message(),
        "Choose at most 200 excluded folders"
    );
}

#[test]
fn a_choice_is_in_its_plainest_form() {
    let given = list(&["b/c", "a", "b", "a/x", "a", "ab", "b/c/d"]);
    assert_eq!(validate(&given).unwrap(), ["a", "ab", "b"]);
}
