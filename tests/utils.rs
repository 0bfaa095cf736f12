use conda_leaves::text::{
    join_lines, split_and_take_n_elem, split_str, starts_with, str_lt, trim_blank,
};
use std::collections::HashMap;

use conda_leaves::utils::{extract_version, get_hashmap_from_conda_info_stdout};

#[test]
fn test_split_and_take_n_elem() {
    let input = "some_pkg (v.1.1.1)";
    assert_eq!(split_and_take_n_elem(&input, 0), Some("some_pkg"));
    assert_eq!(split_and_take_n_elem(&input, 1), Some("(v.1.1.1)"));
}

#[test]
fn test_split_and_take_n_elem_empty_string() {
    let input = "";
    assert_eq!(split_and_take_n_elem(&input, 0), None);
    assert_eq!(split_and_take_n_elem(&input, 1), None);
}

#[test]
fn split_past_the_last_piece_is_none() {
    assert_eq!(split_and_take_n_elem("Name", 1), None);
    assert_eq!(split_and_take_n_elem("a  b", 1), Some(""));
    assert_eq!(split_and_take_n_elem("a  b", 2), Some("b"));
    assert_eq!(split_and_take_n_elem("a b", 2), None);
}

#[test]
fn test_extract_version() {
    let output = extract_version("version 3.7.3");
    assert_eq!(output, Some("3.7.3".to_string()));
}

#[test]
fn test_extract_version_empty() {
    let output = extract_version("version");
    assert_eq!(output, None);
}

#[test]
fn extract_version_takes_the_first_match() {
    assert_eq!(extract_version("conda 4.9.0 on python 3.8.3.final.0"), Some("4.9.0".to_string()));
    assert_eq!(extract_version("12.34.567"), Some("12.34.567".to_string()));
    assert_eq!(extract_version("1.2 and 3"), None);
}

#[test]
fn prefixes() {
    assert!(starts_with("python3", "python"));
    assert!(starts_with("abc", ""));
    assert!(!starts_with("py", "python"));
    assert!(!starts_with("xpython", "python"));
}

#[test]
fn lexicographic_order() {
    assert!(str_lt("pkg2a", "pkg2b"));
    assert!(str_lt("pkg", "pkg2"));
    assert!(!str_lt("pkg2", "pkg"));
    assert!(!str_lt("same", "same"));
    assert!(str_lt("Zeta", "alpha"));
    assert!(str_lt("", "a"));
}

#[test]
fn join_lines_with_newlines() {
    assert_eq!(join_lines(&vec![]), "");
    assert_eq!(join_lines(&vec!["a".to_string()]), "a");
    assert_eq!(join_lines(&vec!["a".to_string(), "b".to_string(), "".to_string()]), "a\nb\n");
}

#[test]
fn test_get_hashmap_from_conda_info_stdout() {
    // given:
    let input_stdout = r#"
        
     active environment : base
     active env location : /tmp/miniconda3
             shell level : 1
        user config file : /tmp/.condarc
  populated config files : /tmp/.condarc
           conda version : 4.9.0
     conda-build version : not installed
          python version : 3.8.3.final.0
        virtual packages : __cuda=11.1=0
                           __glibc=2.31=0
                           __unix=0=0
                           __archspec=1=x86_64
        base environment : /tmp/miniconda3  (writable)
            channel URLs : https://conda.anaconda.org/conda-forge/linux-64
                           https://conda.anaconda.org/conda-forge/noarch
                           https://conda.anaconda.org/anaconda/linux-64
                           https://conda.anaconda.org/anaconda/noarch
                           https://repo.anaconda.com/pkgs/main/linux-64
                           https://repo.anaconda.com/pkgs/main/noarch
                           https://repo.anaconda.com/pkgs/r/linux-64
                           https://repo.anaconda.com/pkgs/r/noarch
           package cache : /tmp/miniconda3/pkgs
                           /tmp/.conda/pkgs
        envs directories : /tmp/miniconda3/envs
                           /tmp/.conda/envs
                platform : linux-64
        
        "#
    .to_string();
    let expected_hashmap: HashMap<String, Vec<String>> = vec![
        ("active environment", vec!["base"]),
        ("active env location", vec!["/tmp/miniconda3"]),
        ("shell level", vec!["1"]),
        ("user config file", vec!["/tmp/.condarc"]),
        ("populated config files", vec!["/tmp/.condarc"]),
        ("conda version", vec!["4.9.0"]),
        ("conda-build version", vec!["not installed"]),
        ("python version", vec!["3.8.3.final.0"]),
        (
            "virtual packages",
            vec![
                "__cuda=11.1=0",
                "__glibc=2.31=0",
                "__unix=0=0",
                "__archspec=1=x86_64",
            ],
        ),
        ("base environment", vec!["/tmp/miniconda3  (writable)"]),
        (
            "channel URLs",
            vec![
                "https://conda.anaconda.org/conda-forge/linux-64",
                "https://conda.anaconda.org/conda-forge/noarch",
                "https://conda.anaconda.org/anaconda/linux-64",
                "https://conda.anaconda.org/anaconda/noarch",
                "https://repo.anaconda.com/pkgs/main/linux-64",
                "https://repo.anaconda.com/pkgs/main/noarch",
                "https://repo.anaconda.com/pkgs/r/linux-64",
                "https://repo.anaconda.com/pkgs/r/noarch",
            ],
        ),
        (
            "package cache",
            vec!["/tmp/miniconda3/pkgs", "/tmp/.conda/pkgs"],
        ),
        (
            "envs directories",
            vec!["/tmp/miniconda3/envs", "/tmp/.conda/envs"],
        ),
        ("platform", vec!["linux-64"]),
    ]
    .iter()
    .map(|tuple| {
        (
            tuple.0.to_string(),
            tuple.1.iter().map(|i| i.to_string()).collect(),
        )
    })
    .collect();
    // when:
    let output_hashmap: HashMap<String, Vec<String>> =
        get_hashmap_from_conda_info_stdout(&input_stdout)
            .unwrap()
            .into_iter()
            .collect();
    // then:
    assert_eq!(output_hashmap, expected_hashmap)
}

#[test]
fn conda_info_keeps_key_order_and_rejects_bad_lines() {
    let entries = get_hashmap_from_conda_info_stdout("b : 1\n  a : 2\n 3\n\nb : 4").unwrap();
    assert_eq!(
        entries,
        vec![
            ("b".to_string(), vec!["1".to_string(), "4".to_string()]),
            ("a".to_string(), vec!["2".to_string(), "3".to_string()]),
        ]
    );
    assert_eq!(get_hashmap_from_conda_info_stdout("orphan value"), None);
    assert_eq!(get_hashmap_from_conda_info_stdout("k : v : w"), None);
    assert_eq!(get_hashmap_from_conda_info_stdout("\n \t\n"), Some(vec![]));
}

#[test]
fn trims_and_splits() {
    assert_eq!(trim_blank("  a b \t"), "a b");
    assert_eq!(trim_blank(" \r\n"), "");
    assert_eq!(split_str("k : v", " : "), vec!["k".to_string(), "v".to_string()]);
    assert_eq!(split_str("a::b", ":"), vec!["a".to_string(), "".to_string(), "b".to_string()]);
    assert_eq!(split_str("none", " : "), vec!["none".to_string()]);
}
