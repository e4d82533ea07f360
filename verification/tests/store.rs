use bukagu::backup::key::normalize_recipient_path;
use bukagu::backup::project_name;
use bukagu::clock::{civil_from_days, moment_at, now_compact, now_rfc3339, seconds_after};
use bukagu::credentials::{
    config_path, env_var, resolve, validate_url, Credentials, CredentialsError, StoredCredentials,
};
use bukagu::path::PathBuf;
use bukagu::store::{
    project_root_of, BackupSettings, Config, Mapping, Store, DEFAULT_RETENTION, STORE_VERSION,
};

fn p(s: &str) -> PathBuf {
    PathBuf::of(s)
}

fn stored(token: &str, url: &str) -> StoredCredentials {
    StoredCredentials { api_token: Some(token.into()), api_url: Some(url.into()) }
}

fn config() -> Config {
    Config { source: p("/src"), destinations: vec![p("/d1"), p("/d2")] }
}

#[test]
fn env_overrides_file() {
    let creds = resolve(
        &stored("file-token", "https://file.example.com"),
        Some("env-token".into()),
        Some("https://env.example.com/".into()),
    )
    .unwrap();
    assert_eq!(creds.api_token, "env-token");
    assert_eq!(creds.api_url, "https://env.example.com", "trailing slash trimmed");
}

#[test]
fn file_used_when_env_absent() {
    let creds = resolve(&stored("file-token", "https://file.example.com"), None, None).unwrap();
    assert_eq!(creds.api_token, "file-token");
    assert_eq!(creds.api_url, "https://file.example.com");
}

#[test]
fn missing_token_is_an_error() {
    let err = resolve(
        &StoredCredentials::default(),
        None,
        Some("https://x.example".into()),
    )
    .unwrap_err();
    assert!(err.message().contains("no API token"));
}

#[test]
fn http_url_is_rejected() {
    assert!(validate_url("http://insecure.example.com").is_err());
    assert!(validate_url("ftp://x").is_err());
    assert!(validate_url("https://").is_err(), "https with no host");
    assert_eq!(
        validate_url("  https://api.example.com/  ").unwrap(),
        "https://api.example.com"
    );
}

#[test]
fn read_file_absent_is_empty() {
    let got = StoredCredentials::default();
    assert!(got.api_token.is_none() && got.api_url.is_none());
}

#[test]
fn url_errors_name_the_url() {
    assert_eq!(
        validate_url("http://x/").unwrap_err().message(),
        "refusing a plain-HTTP API URL (\"http://x/\") — use https:// so the token is encrypted \
         in transit"
    );
    assert_eq!(
        validate_url("ftp://x").unwrap_err().message(),
        "the API URL must start with https:// (got \"ftp://x\")"
    );
    assert!(matches!(
        validate_url("https://").unwrap_err(),
        CredentialsError::NotHttps(_)
    ));
    assert!(matches!(
        validate_url("https://\u{85}").unwrap_err(),
        CredentialsError::NotHttps(_)
    ));
}

#[test]
fn blank_values_do_not_count() {
    assert_eq!(env_var(&Some("  ".into())), None);
    assert_eq!(env_var(&Some(" x ".into())), Some("x".to_string()));
    assert_eq!(env_var(&None), None);
    let err = resolve(&stored("  ", "https://x.example"), None, None).unwrap_err();
    assert_eq!(err, CredentialsError::NoToken);
    let err = resolve(&stored("t", " "), None, None).unwrap_err();
    assert_eq!(
        err.message(),
        "no API URL found — set BUKAGU_API_URL, or run `bukagu auth login`"
    );
    let creds = Credentials::load(
        &stored("file", "https://file.example"),
        &Some("   ".into()),
        &Some(" https://env.example ".into()),
    )
    .unwrap();
    assert_eq!(creds.api_token, "file");
    assert_eq!(creds.api_url, "https://env.example");
}

#[test]
fn saved_credentials_are_checked_first() {
    let ok = Credentials::save("  tok\n", "https://api.example.com/").unwrap();
    assert_eq!(ok.api_token.as_deref(), Some("tok"));
    assert_eq!(ok.api_url.as_deref(), Some("https://api.example.com"));
    let err = Credentials::save("   ", "https://api.example.com").unwrap_err();
    assert_eq!(err.message(), "the API token is empty");
    let err = Credentials::save("", "http://x").unwrap_err();
    assert!(matches!(err, CredentialsError::PlainHttp(_)), "the URL is checked first");
    assert_eq!(config_path(&p("/home/me/.config")), p("/home/me/.config/bukagu/credentials.json"));
}

#[test]
fn saved_credentials_load_again() {
    let saved = Credentials::save(" tok en ", " https://api.example.com / ").unwrap();
    let creds = Credentials::load(&saved, &None, &Some("  ".to_string())).unwrap();
    assert_eq!(creds.api_token, "tok en");
    assert_eq!(creds.api_url, "https://api.example.com");
}

#[test]
fn valid_urls_stay_as_they_are() {
    let once = validate_url(" https://a.example/x/// ").unwrap();
    assert_eq!(once, "https://a.example/x");
    assert_eq!(validate_url(&once).unwrap(), once);
    assert_eq!(validate_url("https://a /").unwrap(), "https://a");
    assert_eq!(validate_url("https://x.example / // ").unwrap(), "https://x.example");
    assert!(matches!(validate_url("https:// /"), Err(CredentialsError::NotHttps(_))));
}

#[test]
fn timestamp_is_rfc3339_utc() {
    let t = now_rfc3339();
    assert_eq!(t.len(), 20); // YYYY-MM-DDTHH:MM:SSZ
    assert!(t.ends_with('Z'));
}

#[test]
fn now_compact_is_filesystem_safe() {
    let t = now_compact();
    assert_eq!(t.len(), 16); // YYYYMMDDTHHMMSSZ
    assert!(t.ends_with('Z'));
    assert!(t.contains('T'));
    assert!(!t.contains(':'), "colons are invalid in Windows paths");
}

#[test]
fn civil_from_days_known_dates() {
    assert_eq!(civil_from_days(0), (1970, 1, 1)); // Unix epoch
    assert_eq!(civil_from_days(18_993), (2022, 1, 1));
}

#[test]
fn dates_around_leap_days_and_eras() {
    assert_eq!(civil_from_days(-1), (1969, 12, 31));
    assert_eq!(civil_from_days(11_016), (2000, 2, 29));
    assert_eq!(civil_from_days(11_017), (2000, 3, 1));
    assert_eq!(civil_from_days(-25_509), (1900, 2, 28));
    assert_eq!(civil_from_days(-25_508), (1900, 3, 1));
    assert_eq!(civil_from_days(-719_468), (0, 3, 1));
    assert_eq!(civil_from_days(-719_469), (0, 2, 29));
    assert_eq!(civil_from_days(-719_529), (-1, 12, 31));
}

#[test]
fn days_follow_each_other() {
    let days_in = |y: i64, m: u32| match m {
        2 if y % 4 == 0 && (y % 100 != 0 || y % 400 == 0) => 29,
        2 => 28,
        4 | 6 | 9 | 11 => 30,
        _ => 31,
    };
    for from in [-720_000i64, -25_600, -400, 0, 10_900, 47_400, 2_932_800] {
        for z in from..from + 800 {
            let (y, m, d) = civil_from_days(z);
            let next = if d < days_in(y, m) {
                (y, m, d + 1)
            } else if m < 12 {
                (y, m + 1, 1)
            } else {
                (y + 1, 1, 1)
            };
            assert_eq!(civil_from_days(z + 1), next);
        }
    }
}

#[test]
fn moments_print_as_timestamps() {
    assert_eq!(moment_at(0).rfc3339(), "1970-01-01T00:00:00Z");
    assert_eq!(moment_at(1_700_000_000).rfc3339(), "2023-11-14T22:13:20Z");
    assert_eq!(moment_at(1_700_000_000).compact(), "20231114T221320Z");
    assert_eq!(moment_at(-1).rfc3339(), "1969-12-31T23:59:59Z");
    assert!(moment_at(i64::MIN).rfc3339().starts_with('-'));
    assert!(moment_at(i64::MAX).rfc3339().starts_with("292277026596-12-04"));
}

#[test]
fn compact_stamps_are_timestamps_without_marks() {
    for secs in [0, 951_782_399, 1_700_000_000, 253_402_300_799, -62_135_596_800] {
        let m = moment_at(secs);
        assert_eq!(m.rfc3339().len(), 20);
        assert_eq!(m.compact(), m.rfc3339().replace(['-', ':'], ""));
        assert_eq!(m.compact().len(), 16);
    }
    assert_eq!(moment_at(253_402_300_800).compact().len(), 17, "the year 10000");
}

#[test]
fn clock_readings_become_seconds() {
    assert_eq!(seconds_after(None), 0, "a clock before the epoch counts as the epoch");
    assert_eq!(seconds_after(Some(0)), 0);
    assert_eq!(seconds_after(Some(1_700_000_000)), 1_700_000_000);
    for n in [i64::MAX as u64, i64::MAX as u64 + 1, u64::MAX - 1, u64::MAX] {
        assert_eq!(seconds_after(Some(n)), n as i64);
    }
}

#[test]
fn stamps_sort_by_time() {
    let mut last = moment_at(-62_135_596_800).compact();
    for secs in [-1i64, 0, 59, 60, 3599, 3600, 86_399, 86_400, 951_782_400, 253_402_300_799] {
        let next = moment_at(secs).compact();
        assert!(last < next, "{last} before {next}");
        assert_eq!(next.len(), 16);
        last = next;
    }
}

#[test]
fn effective_retention_falls_back_to_default() {
    assert_eq!(BackupSettings::default().effective_retention(), DEFAULT_RETENTION);
    assert_eq!(
        BackupSettings { retention: Some(3), ..Default::default() }.effective_retention(),
        3
    );
}

#[test]
fn project_root_steps_out_of_the_store_dir() {
    assert_eq!(project_root_of(&p("/repos/app/.bukagu")), p("/repos/app"));
    assert_eq!(project_root_of(&p("/repos/app")), p("/repos/app"));
    assert_eq!(project_root_of(&p("/repos/bukagu")), p("/repos/bukagu"));
}

#[test]
fn load_is_none_when_absent() {
    assert_eq!(Store::load_from(&p("/base")), p("/base/.bukagu/bukagu-store.json"));
    assert_eq!(Store::load().display(), "./.bukagu/bukagu-store.json");
}

#[test]
fn save_then_load_roundtrips() {
    let mut store = Store::new(config());
    let place = store.save_to(&p("/base"));
    assert_eq!(place.dir, p("/base/.bukagu"));
    assert_eq!(place.file, Store::load_from(&p("/base")));
    assert_eq!(store.version, STORE_VERSION);
    assert_eq!(store.config.source, p("/src"));
    assert_eq!(store.config.destinations.len(), 2);
    assert!(store.last_sync.is_none());
    assert_eq!(store.created_at.len(), 20);
}

#[test]
fn resaving_an_old_store_upgrades_its_version() {
    let mut store = Store::created(config(), "2026-06-13T00:00:00Z".to_string());
    store.version = 1;
    store.mappings.push(Mapping { source_rel: p("a.py"), targets: vec![p("/d1/a.py")] });
    store.save();
    assert_eq!(store.version, STORE_VERSION, "re-saving stamps the current version");
    assert_eq!(store.created_at, "2026-06-13T00:00:00Z");
    assert_eq!(store.mappings.len(), 1);
}

#[test]
fn stamps_leave_the_rest_of_the_store_alone() {
    let mut store = Store::new(config());
    store.mark_synced();
    assert_eq!(store.last_sync.as_ref().unwrap().len(), 20);
    assert!(store.backup.last_backup.is_none());
    store.mark_backed_up();
    assert_eq!(store.backup.last_backup.as_ref().unwrap().len(), 20);
    store.synced_at("now".to_string());
    assert_eq!(store.last_sync.as_deref(), Some("now"));
    store.backed_up_at("then".to_string());
    assert_eq!(store.backup.last_backup.as_deref(), Some("then"));
    assert_eq!(store.config, config());
}

#[test]
fn recipient_path_is_normalized() {
    assert_eq!(normalize_recipient_path(""), "/recipient", "empty → default");
    assert_eq!(normalize_recipient_path("   "), "/recipient");
    assert_eq!(normalize_recipient_path("/"), "/recipient", "bare slash → default");
    assert_eq!(normalize_recipient_path("/recipient"), "/recipient");
    assert_eq!(normalize_recipient_path("recipient"), "/recipient", "leading slash added");
    assert_eq!(normalize_recipient_path("/v2/key/"), "/v2/key", "trailing slash trimmed");
    assert_eq!(normalize_recipient_path("  /api/recipient  "), "/api/recipient");
    assert_eq!(normalize_recipient_path("/api /"), "/api", "no white space is laid bare");
}

#[test]
fn project_name_is_sanitized() {
    assert_eq!(project_name(&p("/home/me/my-repo")), "my-repo");
    assert_eq!(project_name(&p("/a/weird name!/")), "weird_name_");
    assert_eq!(project_name(&p("/")), "project");
}

#[test]
fn project_names_are_never_dots() {
    assert_eq!(project_name(&p("/a/...")), "project");
    assert_eq!(project_name(&p("/a/.hidden.")), "hidden");
    assert_eq!(project_name(&p("/a/ä.b")), "_.b");
}
