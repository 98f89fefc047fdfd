use stadhouder::json::Json;
use stadhouder::layout::Platform;
use stadhouder::number::Reading;
use stadhouder::state::{
    check_time_factor, connection_id_from_filename, connection_profile_paths,
    delete_connection_profile, last_run_ms, parse_int, read_int_file, read_number_file,
    read_service_flag, read_service_flag_ms, service_flag_path, sim_time_diff_ms, state_dir,
    time_factor_start_ms, write_last_run_ms, write_service_flag, ConnectionProfile, Removal,
    StateFile,
};

fn holds(text: &str) -> StateFile {
    StateFile::Contents(text.to_string())
}

#[test]
fn parses_plain_integer() {
    assert_eq!(parse_int("86400000").unwrap(), 86_400_000);
}

#[test]
fn parses_negative_integer() {
    assert_eq!(parse_int("-3600000").unwrap(), -3_600_000);
}

#[test]
fn tolerates_surrounding_whitespace() {
    assert_eq!(parse_int("  1000\n").unwrap(), 1_000);
}

#[test]
fn rejects_non_integer() {
    assert!(parse_int("tomorrow").is_err());
    assert_eq!(parse_int(" tomorrow ").unwrap_err(), "must hold one integer, not 'tomorrow'");
}

#[test]
fn integers_have_the_range_of_64_bits() {
    assert_eq!(parse_int("9223372036854775807").unwrap(), i64::MAX);
    assert_eq!(parse_int("-9223372036854775808").unwrap(), i64::MIN);
    assert_eq!(parse_int("+5").unwrap(), 5);
    assert_eq!(parse_int("007").unwrap(), 7);
    for bad in ["9223372036854775808", "-9223372036854775809", "", "-", "+", "1.5", "1 2", "--1"] {
        assert!(parse_int(bad).is_err());
    }
}

#[test]
fn a_blank_file_is_as_good_as_none() {
    assert_eq!(read_int_file("/p", &StateFile::Missing).unwrap(), None);
    assert_eq!(read_int_file("/p", &holds(" \n")).unwrap(), None);
    assert_eq!(read_int_file("/p", &holds("12")).unwrap(), Some(12));
    assert_eq!(
        read_int_file("/p", &holds("x")).unwrap_err(),
        "/p: must hold one integer, not 'x'"
    );
    assert_eq!(
        read_int_file("/p", &StateFile::Unreadable("denied".to_string())).unwrap_err(),
        "failed to read /p: denied"
    );
}

#[test]
fn each_number_has_its_own_file() {
    assert_eq!(sim_time_diff_ms(Platform::Unix, "/s", &StateFile::Missing).unwrap(), 0);
    assert_eq!(sim_time_diff_ms(Platform::Unix, "/s", &holds("-5")).unwrap(), -5);
    assert_eq!(
        sim_time_diff_ms(Platform::Unix, "/s", &holds("x")).unwrap_err(),
        "/s/sim_time_diff: must hold one integer, not 'x'"
    );
    assert_eq!(time_factor_start_ms(Platform::Unix, "/s", &StateFile::Missing).unwrap(), 0);
    assert_eq!(time_factor_start_ms(Platform::Unix, "/s", &holds("9")).unwrap(), 9);
    assert_eq!(
        time_factor_start_ms(Platform::Unix, "/s/", &holds("y")).unwrap_err(),
        "/s/time_factor_start: must hold one integer, not 'y'"
    );
    assert_eq!(last_run_ms(Platform::Unix, "/s", &StateFile::Missing).unwrap(), None);
    assert_eq!(last_run_ms(Platform::Unix, "/s", &holds("7\n")).unwrap(), Some(7));
    assert_eq!(
        last_run_ms(Platform::Unix, "/s", &holds("z")).unwrap_err(),
        "/s/last_run: must hold one integer, not 'z'"
    );
}

#[test]
fn a_recorded_run_is_read_back() {
    for ms in [0, 1, -1, 1_700_000_000_000, i64::MAX, i64::MIN] {
        let record = write_last_run_ms(ms);
        assert_eq!(record, format!("{ms}\n"));
        assert_eq!(last_run_ms(Platform::Unix, "/s", &StateFile::Contents(record)).unwrap(), Some(ms));
    }
}

#[test]
fn the_rate_of_time_must_be_above_zero() {
    assert_eq!(read_number_file("/s/time_factor", &holds(" 2.5\n")).unwrap(), Some("2.5".to_string()));
    assert_eq!(read_number_file("/s/time_factor", &holds("\n")).unwrap(), None);
    assert_eq!(read_number_file("/s/time_factor", &StateFile::Missing).unwrap(), None);
    assert_eq!(
        read_number_file("/p", &StateFile::Unreadable("no".to_string())).unwrap_err(),
        "failed to read /p: no"
    );
    assert!(check_time_factor("/p", "2.5", &Reading::Positive).is_ok());
    assert_eq!(
        check_time_factor("/p", "fast", &Reading::NotANumber).unwrap_err(),
        "/p: must hold one number, not 'fast'"
    );
    assert_eq!(
        check_time_factor("/p", "-0", &Reading::NotPositive("-0".to_string())).unwrap_err(),
        "time_factor must be > 0, not -0"
    );
}

#[test]
fn a_service_flag_is_read_back() {
    assert_eq!(service_flag_path(Platform::Unix, "/s"), "/s/service_flag");
    let text = write_service_flag(1234, &Json::Int(42));
    let flag = read_service_flag(Platform::Unix, "/s", &StateFile::Contents(text)).unwrap().unwrap();
    assert_eq!(flag.updated_ms, 1234);
    assert_eq!(flag.memory_pct.render(), "42");

    let half = Json::parse("12.5").unwrap();
    let text = write_service_flag(-7, &half);
    let flag = read_service_flag(Platform::Unix, "/s", &holds(&text)).unwrap().unwrap();
    assert_eq!(flag.updated_ms, -7);
    assert_eq!(flag.memory_pct.render(), "12.5");
    assert_eq!(read_service_flag_ms(Platform::Unix, "/s", &holds(&text)).unwrap(), Some(-7));
}

#[test]
fn a_flag_names_its_time_and_its_memory() {
    let text = write_service_flag(5, &Json::parse("0.0").unwrap());
    let value = Json::parse(&text).unwrap();
    assert_eq!(value.int_at("updated_ms"), Some(5));
    assert_eq!(value.get("memory_pct").unwrap().render(), "0.0");
}

#[test]
fn what_is_no_flag_is_an_error() {
    assert!(read_service_flag(Platform::Unix, "/s", &StateFile::Missing).unwrap().is_none());
    assert!(read_service_flag(Platform::Unix, "/s", &holds(" \n")).unwrap().is_none());
    assert_eq!(read_service_flag_ms(Platform::Unix, "/s", &StateFile::Missing).unwrap(), None);
    for bad in ["12", "{}", "{\"updated_ms\":1}", "{\"updated_ms\":1.5,\"memory_pct\":0}", "x"] {
        assert_eq!(
            read_service_flag(Platform::Unix, "/s", &holds(bad)).err().unwrap(),
            format!("/s/service_flag: must hold a service flag, not '{bad}'")
        );
        assert!(read_service_flag_ms(Platform::Unix, "/s", &holds(bad)).is_err());
    }
    assert_eq!(
        read_service_flag(Platform::Unix, "/s", &StateFile::Unreadable("no".to_string())).err().unwrap(),
        "failed to read /s/service_flag: no"
    );
}

#[test]
fn the_state_folder_is_beside_the_web_root() {
    assert_eq!(state_dir(Platform::Unix, Some("/home/a/public_html")).unwrap(), "/home/a/stadhouder/state");
    assert_eq!(state_dir(Platform::Unix, None).unwrap_err(), "DOCUMENT_ROOT env var not set");
    assert_eq!(
        state_dir(Platform::Unix, Some("")).unwrap_err(),
        "could not determine parent of DOCUMENT_ROOT ''"
    );
}

#[test]
fn a_profile_file_is_named_after_its_connection() {
    let id = "123e4567-e89b-42d3-a456-426614174000";
    let path = ConnectionProfile::path_in(Platform::Unix, "/s", id);
    assert_eq!(path, "/s/connection_123e4567_e89b_42d3_a456_426614174000.json");
    let name = path.strip_prefix("/s/").unwrap();
    assert_eq!(connection_id_from_filename(name), Some(id.to_string()));
    assert_eq!(
        ConnectionProfile::draft_path_in(Platform::Unix, "/s", id),
        "/s/.tmp_connection_123e4567_e89b_42d3_a456_426614174000"
    );
    assert_eq!(connection_id_from_filename(".tmp_connection_x"), None);
    assert_eq!(connection_id_from_filename("connection_.json"), Some(String::new()));
    assert_eq!(connection_id_from_filename("connection_x"), None);
    assert_eq!(connection_id_from_filename("x_connection_y.json"), None);
}

#[test]
fn only_profiles_are_listed() {
    let names: Vec<String> = ["connection_a_b.json", "last_run", ".tmp_connection_c", "connection_d.json"]
        .iter()
        .map(|s| s.to_string())
        .collect();
    assert_eq!(
        connection_profile_paths(Platform::Unix, "/s", &names),
        vec!["/s/connection_a_b.json", "/s/connection_d.json"]
    );
}

#[test]
fn removing_a_profile_says_whether_there_was_one() {
    assert_eq!(delete_connection_profile(Platform::Unix, "/s", "a", &Removal::Removed), Ok(true));
    assert_eq!(delete_connection_profile(Platform::Unix, "/s", "a", &Removal::NotFound), Ok(false));
    assert_eq!(
        delete_connection_profile(Platform::Unix, "/s", "a-b", &Removal::Failed("busy".to_string())),
        Err("failed to delete /s/connection_a_b.json: busy".to_string())
    );
}
