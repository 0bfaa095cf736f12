use conda_leaves::error::ParseError;
use conda_leaves::metadata::{
    classify_line, is_low_level_name, normalize_depends, Depends, Descriptor,
    LineKind, Metadata,
};

/// Reads a structured descriptor written as JSON into its fields.
fn descriptor_from_json(text: &str) -> Descriptor {
    let value: serde_json::Value = serde_json::from_str(text).unwrap();
    let depends = match &value["depends"] {
        serde_json::Value::String(s) => Depends::One(s.clone()),
        serde_json::Value::Array(items) => Depends::Many(
            items.iter().map(|i| i.as_str().unwrap().to_string()).collect(),
        ),
        other => panic!("unexpected depends: {}", other),
    };
    Descriptor {
        name: value["name"].as_str().unwrap().to_string(),
        version: value["version"].as_str().unwrap().to_string(),
        depends,
    }
}

fn lines(text: &[&str]) -> Vec<String> {
    text.iter().map(|l| l.to_string()).collect()
}

#[test]
fn test_deserialize_metadata_single_depends() {
    // given:
    let string = r#"{
            "name": "pkg1",
            "version": "0.0.1",
            "depends": "pkg2"
        }"#;
    let expected_m = Metadata {
        name: String::from("pkg1"),
        version: String::from("0.0.1"),
        requires_dist: vec![String::from("pkg2")],
    };
    // when:
    let m: Metadata = Metadata::from_descriptor(descriptor_from_json(string));
    // then:
    assert_eq!(m, expected_m)
}

#[test]
fn test_deserialize_metadata_skip_python() {
    let string = r#"{
            "name": "pkg1",
            "version": "0.0.1",
            "depends": "python"
        }"#;
    let expected_m = Metadata {
        name: String::from("pkg1"),
        version: String::from("0.0.1"),
        requires_dist: vec![],
    };
    let m: Metadata = Metadata::from_descriptor(descriptor_from_json(string));
    assert_eq!(m, expected_m)
}

#[test]
fn test_deserialize_metadata_skip_lib() {
    let string = r#"{
            "name": "pkg1",
            "version": "0.0.1",
            "depends": "libsome"
        }"#;
    let expected_m = Metadata {
        name: String::from("pkg1"),
        version: String::from("0.0.1"),
        requires_dist: vec![],
    };
    let m: Metadata = Metadata::from_descriptor(descriptor_from_json(string));
    assert_eq!(m, expected_m)
}

#[test]
fn test_deserialize_metadata_skip_underscore() {
    let string = r#"{
            "name": "pkg1",
            "version": "0.0.1",
            "depends": "_liblowlevel"
        }"#;
    let expected_m = Metadata {
        name: String::from("pkg1"),
        version: String::from("0.0.1"),
        requires_dist: vec![],
    };
    let m: Metadata = Metadata::from_descriptor(descriptor_from_json(string));
    assert_eq!(m, expected_m)
}

#[test]
fn test_deserialize_metadata_depends_list() {
    let string = r#"{
            "name": "pkg1",
            "version": "0.0.1",
            "depends": ["pkg2a", "pkg2b"]
        }"#;
    let expected_m = Metadata {
        name: String::from("pkg1"),
        version: String::from("0.0.1"),
        requires_dist: vec![String::from("pkg2a"), String::from("pkg2b")],
    };
    let m: Metadata = Metadata::from_descriptor(descriptor_from_json(string));
    assert_eq!(m, expected_m)
}

#[test]
fn test_deserialize_metadata_depends_list_skip_python_and_low_level() {
    let string = r#"{
            "name": "pkg1",
            "version": "0.0.1",
            "depends": ["pkg2a", "pkg2b", "python", "libsome", "_liblowlevel"]
        }"#;
    let expected_m = Metadata {
        name: String::from("pkg1"),
        version: String::from("0.0.1"),
        requires_dist: vec![String::from("pkg2a"), String::from("pkg2b")],
    };
    let m: Metadata = Metadata::from_descriptor(descriptor_from_json(string));
    assert_eq!(m, expected_m)
}

#[test]
fn depends_list_keeps_only_meaningful_names() {
    let d = Depends::Many(vec![
        "pkgA".to_string(),
        "python".to_string(),
        "libfoo".to_string(),
        "_low".to_string(),
    ]);
    assert_eq!(normalize_depends(&d), vec!["pkgA".to_string()]);
}

#[test]
fn single_depends_string_is_one_requirement() {
    assert_eq!(normalize_depends(&Depends::One("pkgA".to_string())), vec!["pkgA".to_string()]);
    assert_eq!(normalize_depends(&Depends::One("python".to_string())), Vec::<String>::new());
}

#[test]
fn depends_entries_lose_their_constraints() {
    let d = Depends::Many(vec![
        "numpy >=1.19,<2".to_string(),
        "python >=3.8".to_string(),
        "six".to_string(),
    ]);
    assert_eq!(normalize_depends(&d), vec!["numpy".to_string(), "six".to_string()]);
    let one = Depends::One("requests >=2.0".to_string());
    assert_eq!(normalize_depends(&one), vec!["requests".to_string()]);
}

#[test]
fn low_level_names() {
    assert!(is_low_level_name("python-dateutil"));
    assert!(is_low_level_name("libgcc-ng"));
    assert!(is_low_level_name("_openmp_mutex"));
    assert!(!is_low_level_name("numpy"));
    assert!(!is_low_level_name("py"));
    assert!(!is_low_level_name(""));
}

#[test]
fn classify_lines_by_key() {
    assert_eq!(classify_line("Name: numpy"), LineKind::Name);
    assert_eq!(classify_line("Version: 1.19.1"), LineKind::Version);
    assert_eq!(classify_line("Provides-Extra: test"), LineKind::Stop);
    assert_eq!(classify_line("Requires-Dist: six"), LineKind::Requirement);
    assert_eq!(classify_line("Summary: a package"), LineKind::Other);
}

#[test]
fn line_descriptor_without_requirements() {
    let m = Metadata::from_metadata_lines(&lines(&[
        "Metadata-Version: 2.1",
        "Name: numpy",
        "Version: 1.19.1",
        "Summary: NumPy is the fundamental package for array computing with Python.",
    ]))
    .unwrap();
    assert_eq!(
        m,
        Metadata {
            name: String::from("numpy"),
            version: String::from("1.19.1"),
            requires_dist: vec![]
        }
    );
}

#[test]
fn line_descriptor_with_requirements() {
    let m = Metadata::from_metadata_lines(&lines(&[
        "Metadata-Version: 2.1",
        "Name: astroid",
        "Version: 2.4.2",
        "Requires-Python: >=3.5",
        "Requires-Dist: lazy-object-proxy (==1.4.*)",
        "Requires-Dist: six (~=1.12)",
        "Requires-Dist: wrapt (~=1.11)",
        "Requires-Dist: typed-ast (<1.5,>=1.4.0) ; implementation_name == \"cpython\"",
    ]))
    .unwrap();
    assert_eq!(
        m.requires_dist,
        vec![
            String::from("lazy-object-proxy"),
            String::from("six"),
            String::from("wrapt"),
            String::from("typed-ast"),
        ]
    );
    assert_eq!(m.name, "astroid");
    assert_eq!(m.version, "2.4.2");
}

#[test]
fn line_descriptor_stops_at_extras() {
    let m = Metadata::from_metadata_lines(&lines(&[
        "Name: mypy",
        "Version: 0.782",
        "Requires-Dist: typed-ast (<1.5.0,>=1.4.0)",
        "Requires-Dist: typing-extensions (>=3.7.4)",
        "Requires-Dist: mypy-extensions (<0.5.0,>=0.4.3)",
        "Provides-Extra: dmypy",
        "Requires-Dist: psutil (>=4.0) ; extra == 'dmypy'",
        "Name",
    ]))
    .unwrap();
    assert_eq!(
        m,
        Metadata {
            name: String::from("mypy"),
            version: String::from("0.782"),
            requires_dist: vec![
                String::from("typed-ast"),
                String::from("typing-extensions"),
                String::from("mypy-extensions"),
            ]
        }
    );
}

#[test]
fn line_descriptor_key_without_value_is_an_error() {
    let r = Metadata::from_metadata_lines(&lines(&["Name: pkg1", "Version", "Requires-Dist"]));
    assert_eq!(r, Err(ParseError::MissingValue(1)));
}

#[test]
fn line_descriptor_without_name_is_an_error() {
    let r = Metadata::from_metadata_lines(&lines(&["Version: 1.0.0", "Requires-Dist: pkg2"]));
    assert_eq!(r, Err(ParseError::MissingName));
}

#[test]
fn line_descriptor_without_version_is_an_error() {
    let r = Metadata::from_metadata_lines(&lines(&["Name: pkg1", "Provides-Extra: x", "Version: 1"]));
    assert_eq!(r, Err(ParseError::MissingVersion));
}

#[test]
fn line_descriptor_last_name_wins() {
    let m = Metadata::from_metadata_lines(&lines(&["Name: first", "Version: 1", "Name: second"]))
        .unwrap();
    assert_eq!(m.name, "second");
}

#[test]
fn depends_entries_are_cut_at_any_whitespace() {
    let d = Depends::Many(vec![
        "a\tb".to_string(),
        "c\nd".to_string(),
        "  e >=1".to_string(),
        "libz\t1.2".to_string(),
    ]);
    assert_eq!(
        normalize_depends(&d),
        vec!["a".to_string(), "c".to_string(), "e".to_string()]
    );
    assert_eq!(normalize_depends(&Depends::One("a\tb".to_string())), vec!["a".to_string()]);
    assert_eq!(normalize_depends(&Depends::One("python\t3.8".to_string())), Vec::<String>::new());
}

#[test]
fn line_values_are_whitespace_delimited_words() {
    let m = Metadata::from_metadata_lines(&lines(&[
        "Name:\tnumpy",
        "Version:   1.19.1  ",
        "Requires-Dist:\tsix\t(>=1.0)",
    ]))
    .unwrap();
    assert_eq!(
        m,
        Metadata {
            name: String::from("numpy"),
            version: String::from("1.19.1"),
            requires_dist: vec![String::from("six")]
        }
    );
}

#[test]
fn line_with_blank_value_is_missing_a_value() {
    let r = Metadata::from_metadata_lines(&lines(&["Name: ", "Version: 1"]));
    assert_eq!(r, Err(ParseError::MissingValue(0)));
}
