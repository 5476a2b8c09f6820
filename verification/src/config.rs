//! Database configuration and the fsync setting's text form.
use vstd::prelude::*;
use crate::error::FerrumError;
use crate::policy::FsyncPolicy;
use crate::strmap::str_equal;
use crate::text::{parse_u64, spec_parse_u64, spec_lower, spec_trim, to_lowercase, trim, spec_decimal, lemma_parse_decimal};

verus! {

/// The interval of the periodic policy when the text gives none: 100 ms, in nanoseconds.
pub const DEFAULT_SYNC_INTERVAL_NANOS: u128 = 100_000_000;

/// Nanoseconds in a millisecond.
pub const NANOS_PER_MILLI: u128 = 1_000_000;

/// High-level configuration for FerrumDB.
pub struct Config {
    /// Path of the database file.
    pub path: String,
    /// AES-256 key; when present, the log is encrypted at rest.
    pub encryption_key: Option<[u8; 32]>,
    pub fsync_policy: FsyncPolicy,
}

/// The default configuration: `ferrum.db`, no encryption, periodic sync every 100 ms.
pub open spec fn is_default_config(c: Config) -> bool {
    &&& c.path@ == "ferrum.db"@
    &&& c.encryption_key is None
    &&& c.fsync_policy == FsyncPolicy::Periodic(100_000_000)
}

impl Default for Config {
    fn default() -> (c: Self)
        ensures
            is_default_config(c),
    {
        Config {
            path: String::from_str("ferrum.db"),
            encryption_key: None,
            fsync_policy: FsyncPolicy::Periodic(DEFAULT_SYNC_INTERVAL_NANOS),
        }
    }
}

impl Config {
    /// Create a new config for the default path.
    pub fn new() -> (c: Self)
        ensures
            is_default_config(c),
    {
        Self::default()
    }

    /// Set an encryption key (AES-256 requires 32 bytes).
    pub fn with_encryption(self, key: [u8; 32]) -> (c: Self)
        ensures
            c.encryption_key == Some(key),
            c.path == self.path,
            c.fsync_policy == self.fsync_policy,
    {
        Config { encryption_key: Some(key), ..self }
    }

    /// Set fsync policy for durability/performance tradeoff.
    pub fn with_fsync_policy(self, policy: FsyncPolicy) -> (c: Self)
        ensures
            c.fsync_policy == policy,
            c.path == self.path,
            c.encryption_key == self.encryption_key,
    {
        Config { fsync_policy: policy, ..self }
    }

    /// The configuration given the value of the `FERRUMDB_FSYNC` setting
    /// (none when it is unset): the default, with the fsync policy the
    /// setting names.
    pub fn from_env_value(value: Option<&str>) -> (r: Result<Self, FerrumError>)
        ensures
            match value {
                None => r matches Ok(c) && is_default_config(c),
                Some(v) => match spec_parse_fsync_policy(v@) {
                    Ok(p) => r matches Ok(c) && c.path@ == "ferrum.db"@ && c.encryption_key is None
                        && c.fsync_policy == p,
                    Err(m) => r matches Err(FerrumError::InvalidConfig(e)) && e@ == m,
                },
            },
    {
        let mut cfg = Self::default();
        if let Some(v) = value {
            let policy = parse_fsync_policy_str(v)?;
            cfg.fsync_policy = policy;
        }
        Ok(cfg)
    }
}

/// The policy a normalized (trimmed, lowercase) fsync setting names, or the
/// message of the configuration error it causes.
pub open spec fn spec_parse_normalized_policy(v: Seq<char>) -> Result<FsyncPolicy, Seq<char>> {
    if v == "always"@ {
        Ok(FsyncPolicy::Always)
    } else if v == "never"@ {
        Ok(FsyncPolicy::Never)
    } else if v == "periodic"@ {
        Ok(FsyncPolicy::Periodic(100_000_000))
    } else if v.len() >= 9 && v.subrange(0, 9) == "periodic:"@ {
        match spec_parse_u64(v.subrange(9, v.len() as int)) {
            None => Err("fsync periodic ms must be a number"@),
            Some(ms) => if ms == 0 {
                Err("fsync periodic ms must be > 0"@)
            } else {
                Ok(FsyncPolicy::Periodic((ms * 1_000_000) as u128))
            },
        }
    } else {
        Err("fsync must be always|never|periodic[:ms]"@)
    }
}

/// The policy an fsync setting names: the setting is trimmed and
/// lowercased, then read as `always`, `never`, `periodic` or `periodic:<ms>`.
pub open spec fn spec_parse_fsync_policy(value: Seq<char>) -> Result<FsyncPolicy, Seq<char>> {
    spec_parse_normalized_policy(spec_lower(spec_trim(value)))
}

/// Every positive interval is taken as given: for every `ms` > 0, the
/// setting `periodic:<ms in decimal>` names the periodic policy with an
/// interval of exactly `ms` milliseconds (in nanoseconds), with no other
/// bound; and `periodic:0` is refused.
pub proof fn lemma_periodic_interval(ms: u64)
    ensures
        ms > 0 ==> spec_parse_normalized_policy("periodic:"@ + spec_decimal(ms as nat))
            == Ok::<FsyncPolicy, Seq<char>>(FsyncPolicy::Periodic((ms * 1_000_000) as u128)),
        ms == 0 ==> spec_parse_normalized_policy("periodic:"@ + spec_decimal(ms as nat)) is Err,
{
    reveal_strlit("periodic:");
    reveal_strlit("periodic");
    reveal_strlit("always");
    reveal_strlit("never");
    let v = "periodic:"@ + spec_decimal(ms as nat);
    lemma_parse_decimal(ms);
    assert(v.subrange(0, 9) =~= "periodic:"@);
    assert(v.subrange(9, v.len() as int) =~= spec_decimal(ms as nat));
    assert(v.len() > 9);
    assert(v != "always"@ && v != "never"@ && v != "periodic"@) by {
        assert(v.len() != "always"@.len());
        assert(v.len() != "never"@.len());
        assert(v.len() != "periodic"@.len());
    }
}

/// A periodic setting with any number of milliseconds the `u64` reader
/// accepts names exactly that interval: `periodic:<text>` with `text` read
/// as `ms` > 0 is the policy with `ms` milliseconds, in nanoseconds.
pub proof fn lemma_periodic_setting(text: Seq<char>)
    ensures
        spec_parse_u64(text) matches Some(ms) ==> (ms > 0 ==> spec_parse_normalized_policy("periodic:"@ + text)
            == Ok::<FsyncPolicy, Seq<char>>(FsyncPolicy::Periodic((ms * 1_000_000) as u128))),
{
    reveal_strlit("periodic:");
    reveal_strlit("periodic");
    reveal_strlit("always");
    reveal_strlit("never");
    let v = "periodic:"@ + text;
    assert(v.subrange(0, 9) =~= "periodic:"@);
    assert(v.subrange(9, v.len() as int) =~= text);
    if spec_parse_u64(text) is Some {
        assert(text.len() > 0);
        assert(v != "always"@ && v != "never"@ && v != "periodic"@) by {
            assert(v.len() != "always"@.len());
            assert(v.len() != "never"@.len());
            assert(v.len() != "periodic"@.len());
        }
    }
}

/// Whether `v` begins with the characters of `prefix`.
fn starts_with(v: &str, prefix: &str) -> (b: bool)
    ensures
        b == (v@.len() >= prefix@.len() && v@.subrange(0, prefix@.len() as int) == prefix@),
{
    let n = prefix.unicode_len();
    if v.unicode_len() < n {
        return false;
    }
    str_equal(v.substring_char(0, n), prefix)
}

/// Reads an fsync setting that is already trimmed and lowercased.
pub fn parse_normalized_policy(v: &str) -> (r: Result<FsyncPolicy, FerrumError>)
    ensures
        match spec_parse_normalized_policy(v@) {
            Ok(p) => r == Ok::<FsyncPolicy, FerrumError>(p),
            Err(m) => r matches Err(FerrumError::InvalidConfig(e)) && e@ == m,
        },
{
    if str_equal(v, "always") {
        Ok(FsyncPolicy::Always)
    } else if str_equal(v, "never") {
        Ok(FsyncPolicy::Never)
    } else if str_equal(v, "periodic") {
        Ok(FsyncPolicy::Periodic(DEFAULT_SYNC_INTERVAL_NANOS))
    } else if starts_with(v, "periodic:") {
        proof {
            reveal_strlit("periodic:");
        }
        let rest = v.substring_char(9, v.unicode_len());
        match parse_u64(rest) {
            None => Err(FerrumError::InvalidConfig(String::from_str("fsync periodic ms must be a number"))),
            Some(ms) => if ms == 0 {
                Err(FerrumError::InvalidConfig(String::from_str("fsync periodic ms must be > 0")))
            } else {
                Ok(FsyncPolicy::Periodic(ms as u128 * NANOS_PER_MILLI))
            },
        }
    } else {
        Err(FerrumError::InvalidConfig(String::from_str("fsync must be always|never|periodic[:ms]")))
    }
}

/// Reads an fsync setting: `always`, `never`, `periodic` (every 100 ms) or
/// `periodic:<ms>` with `ms` > 0, ignoring case and surrounding whitespace.
pub fn parse_fsync_policy_str(value: &str) -> (r: Result<FsyncPolicy, FerrumError>)
    ensures
        match spec_parse_fsync_policy(value@) {
            Ok(p) => r == Ok::<FsyncPolicy, FerrumError>(p),
            Err(m) => r matches Err(FerrumError::InvalidConfig(e)) && e@ == m,
        },
{
    let lowered = to_lowercase(trim(value));
    parse_normalized_policy(lowered.as_str())
}

} // verus!
