use conda_leaves::catalog::Catalog;
use conda_leaves::error::ResolveError;
use conda_leaves::metadata::Metadata;
use conda_leaves::package::{package_to_lines, package_to_text, tree_lines, Installer, Package};

fn record(name: &str, version: &str, requires: &[&str]) -> Metadata {
    Metadata {
        name: String::from(name),
        version: String::from(version),
        requires_dist: requires.iter().map(|r| r.to_string()).collect(),
    }
}

fn tree_catalog() -> Catalog {
    Catalog::from_records(vec![
        record("pkg1", "0.0.1", &[]),
        record("pkg2a", "0.0.1", &["pkg1"]),
        record("pkg2b", "0.0.1", &[]),
        record("pkg3", "0.0.1", &["pkg2a", "pkg2b"]),
    ])
}

#[test]
fn test_package_display_with_version() {
    let package = Package::new(
        String::from("package"),
        String::from("1.0.0"),
        vec![],
        Installer::default(),
    );
    let package_str = package.to_string();
    assert_eq!(package_str, "package (v1.0.0)".to_string())
}

#[test]
fn test_package_display_any_version() {
    let package = Package::new(
        String::from("package"),
        String::from("any"),
        vec![],
        Installer::default(),
    );
    let package_str = package.to_string();
    assert_eq!(package_str, "package".to_string())
}

#[test]
fn test_convert_from_pipmetadata_to_package() {
    let metadata = Metadata {
        name: String::from("some_package"),
        version: String::from("1.0.0"),
        requires_dist: vec![],
    };
    let expected_package = Package::new(
        String::from("some_package"),
        String::from("1.0.0"),
        vec![],
        Installer::default(),
    );
    let catalog = Catalog::new();
    assert_eq!(Package::from_metadata(&catalog, &metadata).unwrap(), expected_package)
}

#[test]
fn test_into_string_conda() {
    let p: String = Package::new(
        String::from("conda1"),
        String::from("0.0.1"),
        vec![],
        Installer::Conda,
    )
    .to_pinned();
    assert_eq!(p, String::from("conda1=0.0.1"))
}

#[test]
fn test_into_string_pip() {
    let p: String = Package::new(
        String::from("pip1"),
        String::from("0.0.1"),
        vec![],
        Installer::Pip,
    )
    .to_pinned();
    assert_eq!(p, String::from("pip1==0.0.1"))
}

#[test]
fn installer_defaults_to_conda() {
    assert_eq!(Installer::default(), Installer::Conda);
}

#[test]
fn tree_lines_of_example_catalog() {
    let lines = tree_lines(&tree_catalog(), "pkg3").unwrap();
    assert_eq!(
        lines,
        vec![
            "pkg3 (v0.0.1)".to_string(),
            "├── pkg2a (v0.0.1)".to_string(),
            "│   └── pkg1 (v0.0.1)".to_string(),
            "└── pkg2b (v0.0.1)".to_string(),
        ]
    );
}

#[test]
fn tree_text_joins_lines_with_newlines() {
    let p = Package::from_name(&tree_catalog(), "pkg3").unwrap();
    assert_eq!(
        package_to_text(&p),
        "pkg3 (v0.0.1)\n├── pkg2a (v0.0.1)\n│   └── pkg1 (v0.0.1)\n└── pkg2b (v0.0.1)"
    );
}

#[test]
fn tree_of_leaf_package_is_one_line() {
    let lines = tree_lines(&tree_catalog(), "pkg1").unwrap();
    assert_eq!(lines, vec!["pkg1 (v0.0.1)".to_string()]);
}

#[test]
fn tree_continues_non_last_child_with_pipe() {
    let catalog = Catalog::from_records(vec![
        record("a", "1", &["b", "c"]),
        record("b", "2", &["d"]),
        record("c", "any", &[]),
        record("d", "3", &["e"]),
        record("e", "4", &[]),
    ]);
    let lines = tree_lines(&catalog, "a").unwrap();
    assert_eq!(
        lines,
        vec![
            "a (v1)".to_string(),
            "├── b (v2)".to_string(),
            "│   └── d (v3)".to_string(),
            "│       └── e (v4)".to_string(),
            "└── c".to_string(),
        ]
    );
}

#[test]
fn tree_of_unknown_package_fails() {
    let r = tree_lines(&tree_catalog(), "unknown");
    assert_eq!(r, Err(ResolveError::NotFound(String::from("unknown"))));
}

#[test]
fn tree_with_missing_requirement_names_it() {
    let catalog = Catalog::from_records(vec![
        record("a", "1", &["b", "missing", "gone"]),
        record("b", "1", &[]),
    ]);
    let r = tree_lines(&catalog, "a");
    assert_eq!(r, Err(ResolveError::NotFound(String::from("missing"))));
}

#[test]
fn tree_with_cycle_fails_with_cycle_error() {
    let catalog = Catalog::from_records(vec![
        record("a", "1", &["b"]),
        record("b", "1", &["a"]),
    ]);
    match tree_lines(&catalog, "a") {
        Err(ResolveError::CycleOrDepth(_)) => {}
        other => panic!("unexpected result: {:?}", other),
    }
}

#[test]
fn self_requirement_is_a_cycle() {
    let catalog = Catalog::from_records(vec![record("a", "1", &["a"])]);
    assert_eq!(
        Package::from_name(&catalog, "a"),
        Err(ResolveError::CycleOrDepth(String::from("a")))
    );
}

#[test]
fn from_metadata_resolves_requirements() {
    let catalog = tree_catalog();
    let root = record("app", "9.9", &["pkg2a"]);
    let p = Package::from_metadata(&catalog, &root).unwrap();
    assert_eq!(p.name(), "app");
    assert_eq!(p.version(), "9.9");
    assert_eq!(p.requirements().len(), 1);
    assert_eq!(p.requirements()[0].name(), "pkg2a");
    assert_eq!(p.requirements()[0].requirements()[0].name(), "pkg1");
    assert_eq!(p.installer(), Installer::Conda);
    assert_eq!(
        package_to_lines(&p),
        vec![
            "app (v9.9)".to_string(),
            "└── pkg2a (v0.0.1)".to_string(),
            "    └── pkg1 (v0.0.1)".to_string(),
        ]
    );
}
