use kvs::layout::{check_engine, log_files, log_generation};
use kvs::KvsError;

#[test]
fn log_generation_reads_decimal_names() {
    assert_eq!(log_generation("1.log"), Some(1));
    assert_eq!(log_generation("0.log"), Some(0));
    assert_eq!(log_generation("42.log"), Some(42));
    assert_eq!(log_generation("4294967295.log"), Some(u32::MAX));
}

#[test]
fn log_generation_reads_leading_zeros() {
    assert_eq!(log_generation("007.log"), Some(7));
    assert_eq!(log_generation("01.log"), Some(1));
    assert_eq!(log_generation("0000000000004294967295.log"), Some(u32::MAX));
}

#[test]
fn log_generation_rejects_other_names() {
    assert_eq!(log_generation("engine"), None);
    assert_eq!(log_generation(".log"), None);
    assert_eq!(log_generation("1.txt"), None);
    assert_eq!(log_generation("1.logs"), None);
    assert_eq!(log_generation("a1.log"), None);
    assert_eq!(log_generation("4294967296.log"), None);
}

fn strings(names: &[&str]) -> Vec<String> {
    names.iter().map(|s| s.to_string()).collect()
}

#[test]
fn log_files_sorts_generations() {
    let names = strings(&["10.log", "engine", "2.log", "001.log", "x.log", "007.log"]);
    let expected = vec![
        (1, "001.log".to_string()),
        (2, "2.log".to_string()),
        (7, "007.log".to_string()),
        (10, "10.log".to_string()),
    ];
    assert_eq!(log_files(&names), expected);
    assert_eq!(log_files(&Vec::new()), Vec::new());
}

#[test]
fn log_files_keeps_every_name_of_one_generation() {
    let expected = vec![
        (1, "1.log".to_string()),
        (7, "07.log".to_string()),
        (7, "7.log".to_string()),
        (7, "007.log".to_string()),
    ];
    assert_eq!(log_files(&strings(&["07.log", "7.log", "1.log", "007.log"])), expected);
}

#[test]
fn check_engine_accepts_a_new_or_matching_directory() {
    assert_eq!(check_engine(None, &"kvs".to_string()), Ok(true));
    assert_eq!(check_engine(Some("kvs".to_string()), &"kvs".to_string()), Ok(false));
}

#[test]
fn check_engine_rejects_another_engine() {
    assert_eq!(
        check_engine(Some("kvs".to_string()), &"sled".to_string()),
        Err(KvsError::EngineMismatch("kvs".to_string()))
    );
}
