use greppy::Config;
use greppy::ConfigError;

#[test]
fn missing_query_is_rejected() {
    let args: Vec<String> = vec![];
    match Config::new(&args, false) {
        Err(ConfigError::MissingArgument(msg)) => {
            assert!(msg.contains("'query'"));
            assert!(msg.contains("'filename'"));
        }
        _ => panic!("expected a missing-argument error"),
    }
}

#[test]
fn missing_filename_is_rejected() {
    let args = vec!["needle".to_string()];
    match Config::new(&args, false) {
        Err(ConfigError::MissingArgument(msg)) => {
            assert!(msg.contains("Filename not specified"));
            assert!(msg.contains("'query'"));
            assert!(msg.contains("'filename'"));
        }
        _ => panic!("expected a missing-argument error"),
    }
}

#[test]
fn three_arguments_are_rejected() {
    let args = vec!["a".to_string(), "b".to_string(), "c".to_string()];
    assert!(matches!(
        Config::new(&args, false),
        Err(ConfigError::TooManyArguments(_))
    ));
}

#[test]
fn two_arguments_build_a_request() {
    let args = vec!["needle".to_string(), "hay.txt".to_string()];
    let config = Config::new(&args, false).unwrap();
    assert_eq!(config.query, "needle");
    assert_eq!(config.filename, "hay.txt");
    assert!(config.case_sensitive);
}

#[test]
fn environment_toggle_disables_case_sensitivity() {
    let args = vec!["needle".to_string(), "hay.txt".to_string()];
    let config = Config::new(&args, true).unwrap();
    assert!(!config.case_sensitive);
}

#[test]
fn error_message_is_exposed() {
    let args: Vec<String> = vec![];
    let err = Config::new(&args, false).unwrap_err();
    assert_eq!(
        err.message(),
        "Query not specified USE: ./greppy 'query' 'filename'"
    );
}
