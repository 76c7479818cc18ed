use shard::config::loader::{Loader, LoaderError, LoaderKind, LoaderVersion};

fn expect_loader(string: &str, loader: &Loader) {
    let parsed = Loader::parse(string).expect("failed to parse string");
    assert_eq!(&parsed, loader);
}

#[test]
fn parses_fabric_without_version() {
    expect_loader("fabric", &Loader {
        kind: LoaderKind::Fabric,
        version: LoaderVersion::Latest,
    });
}

#[test]
fn parses_fabric_with_version() {
    expect_loader("fabric@0.19.3", &Loader {
        kind: LoaderKind::Fabric,
        version: LoaderVersion::Explicit("0.19.3".into()),
    });
}

#[test]
fn parses_fabric_with_explicit_latest() {
    expect_loader("fabric@latest", &Loader {
        kind: LoaderKind::Fabric,
        version: LoaderVersion::Latest,
    });
}

#[test]
fn rejects_an_unknown_kind() {
    let error = Loader::parse("forge@47.1").expect_err("forge is not a supported loader");
    assert_eq!(error, LoaderError::InvalidKind("forge".to_string()));
    assert_eq!(error.to_string(), "invalid loader kind: 'forge'");
}

#[test]
fn rejects_an_unknown_kind_without_version() {
    let error = Loader::parse("quilt").expect_err("quilt is not a supported loader");
    assert_eq!(error, LoaderError::InvalidKind("quilt".to_string()));
}

#[test]
fn splits_at_the_first_at_sign() {
    let loader = Loader::parse("fabric@1.0@beta").expect("the version may hold an @");
    assert_eq!(loader.version, LoaderVersion::Explicit("1.0@beta".to_string()));
}

#[test]
fn an_empty_version_is_explicit() {
    let loader = Loader::parse("fabric@").expect("an empty version is still a version");
    assert_eq!(loader.version, LoaderVersion::Explicit(String::new()));
}

#[test]
fn an_empty_description_names_no_kind() {
    let error = Loader::parse("").expect_err("an empty description names no loader");
    assert_eq!(error, LoaderError::InvalidKind(String::new()));
}

#[test]
fn clones_keep_the_version() {
    let loader = Loader::parse("fabric@0.16.0").unwrap();
    assert_eq!(loader.clone(), loader);
}

#[test]
fn an_explicit_latest_is_the_same_as_no_version() {
    assert_eq!(Loader::parse("fabric@latest"), Loader::parse("fabric"));
    assert_eq!(Loader::parse("forge@latest"), Loader::parse("forge"));
}
