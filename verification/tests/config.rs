use stadhouder::config::{parse_kv, Config};
use stadhouder::layout::Platform;
use stadhouder::number::Reading;
use stadhouder::state::StateFile;

/// What a text is as a number.
fn reading_of(text: &str) -> Reading {
    match text.parse::<f64>() {
        Err(_) => Reading::NotANumber,
        Ok(pct) if pct > 0.0 => Reading::Positive,
        Ok(pct) => Reading::NotPositive(format!("{pct}")),
    }
}

fn from_str(contents: &str) -> Result<Config, String> {
    let reading = match Config::reject_pct_text(contents) {
        Some(text) => reading_of(&text),
        None => Reading::NotANumber,
    };
    Config::from_str(contents, &reading)
}

/// The number that the configuration holds.
fn reject_pct(config: &Config) -> f64 {
    config.memory_reject_pct.parse().unwrap()
}

#[test]
fn parse_kv_reads_simple_pairs() {
    let values = parse_kv("TEST_ENV=true\nOTHER=1000");
    assert_eq!(values.get("TEST_ENV").map(String::as_str), Some("true"));
    assert_eq!(values.get("OTHER").map(String::as_str), Some("1000"));
}

#[test]
fn parse_kv_skips_comments_and_blank_lines() {
    let values = parse_kv("# a comment\n\nTEST_ENV=true\n");
    assert_eq!(values.len(), 1);
}

#[test]
fn parse_kv_trims_whitespace() {
    let values = parse_kv("  TEST_ENV =  true  ");
    assert_eq!(values.get("TEST_ENV").map(String::as_str), Some("true"));
}

#[test]
fn empty_config_gives_defaults() {
    let config = from_str("").unwrap();
    assert!(!config.test_env);
    assert_eq!(config.cookie_name, None);
    assert_eq!(config.user_id_url, None);
    assert_eq!(config.user_id_json, None);
    assert_eq!(config.memory_limit_bytes, None);
    assert_eq!(config.memory_reject_pct, "100");
    assert_eq!(Config::default().memory_reject_pct, "100");
}

#[test]
fn cookie_name_is_read() {
    let config = from_str("COOKIE_NAME=keyscarf_session").unwrap();
    assert_eq!(config.cookie_name.as_deref(), Some("keyscarf_session"));
}

#[test]
fn blank_cookie_name_counts_as_unset() {
    let config = from_str("COOKIE_NAME=").unwrap();
    assert_eq!(config.cookie_name, None);
}

#[test]
fn user_id_url_is_read() {
    let config = from_str("USER_ID_URL=/cgi-bin/keyscarf/api_session_check").unwrap();
    assert_eq!(config.user_id_url.as_deref(), Some("/cgi-bin/keyscarf/api_session_check"));
}

#[test]
fn blank_user_id_url_counts_as_unset() {
    let config = from_str("USER_ID_URL=").unwrap();
    assert_eq!(config.user_id_url, None);
}

#[test]
fn user_id_json_is_read() {
    let config = from_str("USER_ID_JSON=data.id").unwrap();
    assert_eq!(config.user_id_json.as_deref(), Some("data.id"));
}

#[test]
fn blank_user_id_json_counts_as_unset() {
    let config = from_str("USER_ID_JSON=").unwrap();
    assert_eq!(config.user_id_json, None);
}

#[test]
fn test_env_is_read() {
    assert!(from_str("TEST_ENV=true").unwrap().test_env);
}

#[test]
fn test_env_is_case_insensitive() {
    assert!(from_str("TEST_ENV=True").unwrap().test_env);
    assert!(!from_str("TEST_ENV=FALSE").unwrap().test_env);
}

#[test]
fn bad_test_env_is_rejected() {
    assert!(from_str("TEST_ENV=yes").is_err());
    assert_eq!(
        from_str("TEST_ENV=yes").err().unwrap(),
        "TEST_ENV must be true or false, not 'yes'"
    );
}

#[test]
fn memory_limit_mb_is_read_as_bytes() {
    let config = from_str("MEMORY_LIMIT_MB=256").unwrap();
    assert_eq!(config.memory_limit_bytes, Some(256 * 1024 * 1024));
}

#[test]
fn blank_memory_limit_mb_counts_as_unset() {
    let config = from_str("MEMORY_LIMIT_MB=").unwrap();
    assert_eq!(config.memory_limit_bytes, None);
}

#[test]
fn zero_memory_limit_mb_is_rejected() {
    assert!(from_str("MEMORY_LIMIT_MB=0").is_err());
    assert_eq!(from_str("MEMORY_LIMIT_MB=0").err().unwrap(), "MEMORY_LIMIT_MB must be > 0");
}

#[test]
fn non_numeric_memory_limit_mb_is_rejected() {
    assert!(from_str("MEMORY_LIMIT_MB=lots").is_err());
    assert_eq!(
        from_str("MEMORY_LIMIT_MB=lots").err().unwrap(),
        "MEMORY_LIMIT_MB must be a positive integer, not 'lots'"
    );
    assert!(from_str("MEMORY_LIMIT_MB=-1").is_err());
}

#[test]
fn a_memory_limit_beyond_64_bits_is_rejected() {
    let most = from_str("MEMORY_LIMIT_MB=17592186044415").unwrap();
    assert_eq!(most.memory_limit_bytes, Some(17_592_186_044_415 * 1_048_576));
    assert_eq!(
        from_str("MEMORY_LIMIT_MB=17592186044416").err().unwrap(),
        "MEMORY_LIMIT_MB must be a positive integer, not '17592186044416'"
    );
}

#[test]
fn memory_reject_pct_defaults_to_100() {
    let config = from_str("").unwrap();
    assert_eq!(reject_pct(&config), 100.0);
}

#[test]
fn memory_reject_pct_is_read() {
    let config = from_str("MEMORY_REJECT_PCT=90").unwrap();
    assert_eq!(reject_pct(&config), 90.0);
}

#[test]
fn blank_memory_reject_pct_defaults_to_100() {
    let config = from_str("MEMORY_REJECT_PCT=").unwrap();
    assert_eq!(reject_pct(&config), 100.0);
}

#[test]
fn zero_memory_reject_pct_is_rejected() {
    assert!(from_str("MEMORY_REJECT_PCT=0").is_err());
    assert_eq!(from_str("MEMORY_REJECT_PCT=0").err().unwrap(), "MEMORY_REJECT_PCT must be > 0");
}

#[test]
fn negative_memory_reject_pct_is_rejected() {
    assert!(from_str("MEMORY_REJECT_PCT=-5").is_err());
}

#[test]
fn non_numeric_memory_reject_pct_is_rejected() {
    assert!(from_str("MEMORY_REJECT_PCT=lots").is_err());
    assert_eq!(
        from_str("MEMORY_REJECT_PCT=lots").err().unwrap(),
        "MEMORY_REJECT_PCT must be a positive number, not 'lots'"
    );
}

#[test]
fn the_last_assignment_wins() {
    let values = parse_kv("A=1\nB=2\nA = 3\r\n");
    assert_eq!(values.len(), 2);
    assert_eq!(values.get("A").map(String::as_str), Some("3"));
    assert_eq!(values.get("B").map(String::as_str), Some("2"));
    assert!(values.get("C").is_none());
}

#[test]
fn a_value_may_hold_an_equals_sign_and_a_line_without_one_is_ignored() {
    let values = parse_kv("A=b=c\nnothing here\n  # A=d");
    assert_eq!(values.get("A").map(String::as_str), Some("b=c"));
    assert_eq!(values.len(), 1);
}

#[test]
fn the_first_fault_is_the_one_reported() {
    assert!(from_str("MEMORY_LIMIT_MB=0\nTEST_ENV=no").err().unwrap().starts_with("TEST_ENV"));
    assert!(from_str("MEMORY_REJECT_PCT=0\nMEMORY_LIMIT_MB=x")
        .err()
        .unwrap()
        .starts_with("MEMORY_LIMIT_MB"));
}

#[test]
fn a_missing_file_is_a_valid_configuration() {
    let config = Config::load("/cfg", &StateFile::Missing, &Reading::NotANumber).unwrap();
    assert!(!config.test_env);
    assert!(config.memory_limit_bytes.is_none());
    assert_eq!(config.memory_reject_pct, "100");
    assert!(config.user_id_url.is_none());
    assert!(config.user_id_json.is_none());
}

#[test]
fn a_faulty_file_is_named() {
    let unreadable = StateFile::Unreadable("denied".to_string());
    assert_eq!(
        Config::load("/x/stadhouder.conf", &unreadable, &Reading::Positive).err().unwrap(),
        "failed to read /x/stadhouder.conf: denied"
    );
    let bad = StateFile::Contents("TEST_ENV=maybe".to_string());
    assert_eq!(
        Config::load("/x/stadhouder.conf", &bad, &Reading::Positive).err().unwrap(),
        "/x/stadhouder.conf: TEST_ENV must be true or false, not 'maybe'"
    );
    let good = StateFile::Contents("TEST_ENV=true\nUSER_ID_JSON=id".to_string());
    let config = Config::load("/x/stadhouder.conf", &good, &Reading::Positive).unwrap();
    assert!(config.test_env);
    assert_eq!(config.user_id_json.as_deref(), Some("id"));
}

#[test]
fn the_configuration_file_is_beside_the_web_root() {
    assert_eq!(
        Config::config_path(Platform::Unix, Some("/home/a/public_html")).unwrap(),
        "/home/a/stadhouder/cfg/stadhouder.conf"
    );
    assert!(Config::config_path(Platform::Unix, None).is_err());
}
