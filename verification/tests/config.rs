use shard::config::v1::{ShardConfig, ShardConfigError};

#[test]
fn accepts_version_one() {
    assert_eq!(ShardConfig::check_version(1), Ok(()));
}

#[test]
fn rejects_other_versions() {
    assert_eq!(ShardConfig::check_version(2), Err(ShardConfigError::UnsupportedVersion(2)));
    assert_eq!(ShardConfig::check_version(0), Err(ShardConfigError::UnsupportedVersion(0)));
}

#[test]
fn describes_an_unsupported_version() {
    assert_eq!(
        ShardConfigError::UnsupportedVersion(7).to_string(),
        "unsupported config version: 7"
    );
    assert_eq!(
        ShardConfigError::UnsupportedVersion(42).to_string(),
        "unsupported config version: 42"
    );
    assert_eq!(
        ShardConfigError::UnsupportedVersion(255).to_string(),
        "unsupported config version: 255"
    );
    assert_eq!(
        ShardConfigError::UnsupportedVersion(100).to_string(),
        "unsupported config version: 100"
    );
}
