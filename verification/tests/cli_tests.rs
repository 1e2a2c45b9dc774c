use kvs::cli::{check_engine, engine_name, parse_engine};
use kvs::naming::{gen_of_filename, log_file_name};
use kvs::{validate_addr, Engine};

#[test]
fn good_addresses_pass_unchanged() {
    assert_eq!(validate_addr("127.0.0.1:4000"), Ok("127.0.0.1:4000".to_string()));
    assert_eq!(validate_addr("localhost:1"), Ok("localhost:1".to_string()));
    assert_eq!(validate_addr("0.0.0.0:65535"), Ok("0.0.0.0:65535".to_string()));
    assert_eq!(validate_addr("h:00042"), Ok("h:00042".to_string()));
}

#[test]
fn bad_addresses_are_rejected() {
    assert!(validate_addr("127.0.0.1").is_err());
    assert!(validate_addr("1:2:3").is_err());
    assert!(validate_addr("host:").is_err());
    assert!(validate_addr("host:0").is_err());
    assert!(validate_addr("host:65536").is_err());
    assert!(validate_addr("host:99999999999999999999").is_err());
    assert!(validate_addr("host:12a").is_err());
    assert!(validate_addr("").is_err());
}

#[test]
fn engine_markers_round_trip() {
    assert_eq!(engine_name(Engine::Kvs), "kvs");
    assert_eq!(engine_name(Engine::Sled), "sled");
    assert_eq!(parse_engine("kvs"), Some(Engine::Kvs));
    assert_eq!(parse_engine("sled"), Some(Engine::Sled));
    assert_eq!(parse_engine("rocks"), None);
    assert_eq!(parse_engine(""), None);
}

#[test]
fn a_mismatched_engine_marker_refuses_the_start() {
    let sled_marker = "sled".to_string();
    let kvs_marker = "kvs".to_string();
    let junk = "no engine".to_string();
    assert!(!check_engine(Engine::Kvs, Some(&sled_marker)));
    assert!(!check_engine(Engine::Sled, Some(&kvs_marker)));
    assert!(check_engine(Engine::Kvs, Some(&kvs_marker)));
    assert!(check_engine(Engine::Sled, Some(&sled_marker)));
    assert!(check_engine(Engine::Kvs, None));
    assert!(check_engine(Engine::Kvs, Some(&junk)));
}

#[test]
fn log_file_names_parse_back() {
    assert_eq!(log_file_name(1), "1.log");
    assert_eq!(log_file_name(42), "42.log");
    assert_eq!(log_file_name(0), "0.log");
    assert_eq!(gen_of_filename("1.log"), Some(1));
    assert_eq!(gen_of_filename("01.log"), Some(1));
    assert_eq!(gen_of_filename("18446744073709551615.log"), Some(u64::MAX));
    assert_eq!(gen_of_filename("18446744073709551616.log"), None);
    assert_eq!(gen_of_filename("abc.log"), None);
    assert_eq!(gen_of_filename("7.txt"), None);
    assert_eq!(gen_of_filename(".log"), None);
    assert_eq!(gen_of_filename(""), None);
}
