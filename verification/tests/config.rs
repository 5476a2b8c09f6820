use ferrumdb::config::{parse_fsync_policy_str, Config};
use ferrumdb::error::FerrumError;
use ferrumdb::policy::FsyncPolicy;

#[test]
fn fsync_policy_words() {
    assert_eq!(parse_fsync_policy_str("always").unwrap(), FsyncPolicy::Always);
    assert_eq!(parse_fsync_policy_str("  NEVER \n").unwrap(), FsyncPolicy::Never);
    assert_eq!(parse_fsync_policy_str("Periodic").unwrap(), FsyncPolicy::Periodic(100_000_000));
    assert_eq!(parse_fsync_policy_str("periodic:250").unwrap(), FsyncPolicy::Periodic(250_000_000));
    assert_eq!(parse_fsync_policy_str("periodic:+7").unwrap(), FsyncPolicy::Periodic(7_000_000));
}

#[test]
fn fsync_policy_errors() {
    assert_eq!(
        parse_fsync_policy_str("periodic:0").unwrap_err(),
        FerrumError::InvalidConfig("fsync periodic ms must be > 0".into())
    );
    assert_eq!(
        parse_fsync_policy_str("periodic:abc").unwrap_err(),
        FerrumError::InvalidConfig("fsync periodic ms must be a number".into())
    );
    assert_eq!(
        parse_fsync_policy_str("periodic:").unwrap_err(),
        FerrumError::InvalidConfig("fsync periodic ms must be a number".into())
    );
    assert_eq!(
        parse_fsync_policy_str("periodic:99999999999999999999").unwrap_err(),
        FerrumError::InvalidConfig("fsync periodic ms must be a number".into())
    );
    assert_eq!(
        parse_fsync_policy_str("sometimes").unwrap_err(),
        FerrumError::InvalidConfig("fsync must be always|never|periodic[:ms]".into())
    );
}

#[test]
fn config_defaults_and_builders() {
    let c = Config::new();
    assert_eq!(c.path, "ferrum.db");
    assert_eq!(c.encryption_key, None);
    assert_eq!(c.fsync_policy, FsyncPolicy::Periodic(100_000_000));
    let c = c.with_encryption([7u8; 32]).with_fsync_policy(FsyncPolicy::Never);
    assert_eq!(c.encryption_key, Some([7u8; 32]));
    assert_eq!(c.fsync_policy, FsyncPolicy::Never);
    assert_eq!(c.path, "ferrum.db");
    let d = Config::default();
    assert_eq!(d.path, "ferrum.db");
}

#[test]
fn config_from_env_value() {
    assert_eq!(Config::from_env_value(None).unwrap().fsync_policy, FsyncPolicy::Periodic(100_000_000));
    assert_eq!(Config::from_env_value(Some("always")).unwrap().fsync_policy, FsyncPolicy::Always);
    assert!(matches!(Config::from_env_value(Some("bogus")), Err(FerrumError::InvalidConfig(_))));
}

#[test]
fn sync_due_follows_policy() {
    assert!(FsyncPolicy::Always.sync_due(0));
    assert!(!FsyncPolicy::Never.sync_due(1_000_000));
    assert!(!FsyncPolicy::Periodic(100).sync_due(99));
    assert!(FsyncPolicy::Periodic(100).sync_due(100));
    // A sub-millisecond interval is kept exactly.
    let p = FsyncPolicy::Periodic(std::time::Duration::from_micros(1_500).as_nanos());
    assert!(!p.sync_due(1_499_999));
    assert!(p.sync_due(1_500_000));
}
