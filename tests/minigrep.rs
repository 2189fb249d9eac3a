use algorithms_and_data_structures::minigrep::{
    search, search_case_insensitive, select_lines, ArgsError, ParsedMainArgs,
};

#[test]
fn should_match_return_search() {
    let test_cases = [
        (
            "Should return empty result",
            "not present",
            "Line 1 \nLine 2\n",
            Vec::<&str>::new(),
        ),
        (
            "Should return empty result (query: \\n)",
            "\n",
            "Line 1 \nLine 2\n",
            Vec::<&str>::new(),
        ),
        (
            "Should return empty result (invalid substring)",
            "safeduct",
            "Rust:\nsafe, fast, productive.\nPick three.",
            Vec::<&str>::new(),
        ),
        (
            "Should return one result",
            "duct",
            "Rust:\nsafe, fast, productive.\nPick three.",
            vec!["safe, fast, productive."],
        ),
        (
            "Should return two results",
            "duct",
            "Rust:\nsafe, fast, productive.\nPick three.\n this is a dductt \n",
            vec!["safe, fast, productive.", " this is a dductt "],
        ),
        (
            "Should return one result (case sensitive)",
            "Duct",
            "Rust:\nsafe, fast, productive.\nPick three.\n this is a dDuctt \n",
            vec![" this is a dDuctt "],
        ),
        (
            "Should match everything",
            "",
            "Rust:\nsafe, fast, productive.\nPick three.",
            vec!["Rust:", "safe, fast, productive.", "Pick three."],
        ),
    ];

    for (description, query, contents, expected_result) in test_cases {
        assert_eq!(
            expected_result,
            search(query, contents)
                .into_iter()
                .map(|v| v.1)
                .collect::<Vec<String>>(),
            "{}",
            description
        );
    }
}

#[test]
fn should_match_return_search_case_insensitive() {
    let test_cases = [
        (
            "Should return empty result",
            "not present",
            "Line 1 \nLine 2\n",
            Vec::<&str>::new(),
        ),
        (
            "Should return empty result (query: \\n)",
            "\n",
            "Line 1 \nLine 2\n",
            Vec::<&str>::new(),
        ),
        (
            "Should return empty result (invalid substring)",
            "safeduct",
            "Rust:\nsafe, fast, productive.\nPick three.",
            Vec::<&str>::new(),
        ),
        (
            "Should return one result",
            "duct",
            "Rust:\nsafe, fast, productive.\nPick three.",
            vec!["safe, fast, productive."],
        ),
        (
            "Should return two results",
            "duct",
            "Rust:\nsafe, fast, productive.\nPick three.\n this is a dductt \n",
            vec!["safe, fast, productive.", " this is a dductt "],
        ),
        (
            "Should return two results (case insensitive)",
            "DuCt",
            "Rust:\nsafe, fast, prodUctive.\nPick three.\n this is a dDucTt \n",
            vec!["safe, fast, prodUctive.", " this is a dDucTt "],
        ),
        (
            "Should match everything",
            "",
            "Rust:\nsafe, fast, productive.\nPick three.",
            vec!["Rust:", "safe, fast, productive.", "Pick three."],
        ),
    ];

    for (description, query, contents, expected_result) in test_cases {
        assert_eq!(
            expected_result,
            search_case_insensitive(query, contents)
                .into_iter()
                .map(|v| v.1)
                .collect::<Vec<String>>(),
            "{}",
            description
        );
    }
}

#[test]
fn search_reports_line_indices() {
    let found = search("a", "xa\nbb\r\nab\n");
    assert_eq!(found, vec![(0, "xa".to_string()), (2, "ab".to_string())]);
}

#[test]
fn case_insensitive_search_lowers_both_sides() {
    let found = search_case_insensitive("ÄB", "xäb\nAB\nq");
    assert_eq!(found, vec![(0, "xäb".to_string())]);
    let found = search_case_insensitive("ab", "xAb\nq");
    assert_eq!(found, vec![(0, "xAb".to_string())]);
}

#[test]
fn select_lines_uses_the_keys() {
    let lines = vec!["one".to_string(), "two".to_string(), "three".to_string()];
    let keys = vec!["k".to_string(), "xkx".to_string(), "y".to_string()];
    assert_eq!(select_lines("k", &lines, &keys), vec![(0, "one".to_string()), (1, "two".to_string())]);
}

#[test]
fn build_reads_query_and_path() {
    let args = vec!["prog".to_string()];
    assert_eq!(ParsedMainArgs::build(&args, false).err(), Some(ArgsError::MissingQuery));
    let args = vec!["prog".to_string(), "q".to_string()];
    assert_eq!(ParsedMainArgs::build(&args, false).err(), Some(ArgsError::MissingFilePath));
    let args = vec!["prog".to_string(), "q".to_string(), "f.txt".to_string()];
    let parsed = ParsedMainArgs::build(&args, true).ok().unwrap();
    assert_eq!(parsed.query(), "q");
    assert_eq!(parsed.file_path(), "f.txt");
    assert!(parsed.ignore_case());
}
