use minigrep::{Argument, ArgumentError, Config, CASE_INSENSITIVE_VARIABLE};

fn args(words: &[&str]) -> Vec<String> {
    let mut out = Vec::new();
    for word in words {
        out.push(String::from(*word));
    }
    out
}

#[test]
fn config_takes_query_and_filename_in_order() {
    let config = Config::new(args(&["minigrep", "needle", "haystack.txt"]), None).unwrap();
    assert_eq!("needle", config.query);
    assert_eq!("haystack.txt", config.filename);
    assert!(config.case_sensitive);
}

#[test]
fn config_ignores_case_when_the_variable_is_set() {
    let config = Config::new(
        args(&["minigrep", "needle", "haystack.txt"]),
        Some(String::from("1")),
    )
    .unwrap();
    assert_eq!("needle", config.query);
    assert_eq!("haystack.txt", config.filename);
    assert!(!config.case_sensitive);
}

#[test]
fn config_ignores_case_whatever_the_value_of_the_variable() {
    for value in ["", "0", "false", "no", "CASE_INSENSITIVE"] {
        let config = Config::new(
            args(&["minigrep", "needle", "haystack.txt"]),
            Some(String::from(value)),
        )
        .unwrap();
        assert!(!config.case_sensitive);
    }
}

#[test]
fn the_variable_is_named_case_insensitive() {
    assert_eq!("CASE_INSENSITIVE", CASE_INSENSITIVE_VARIABLE);
}

#[test]
fn config_missing_filename() {
    let made = Config::new(args(&["minigrep", "needle"]), None);
    assert_eq!(
        Err(ArgumentError::MissingArgument {
            which: Argument::Filename
        }),
        made
    );
    assert_eq!("Filename not present", made.unwrap_err().message());
}

#[test]
fn config_missing_query() {
    let made = Config::new(args(&["minigrep"]), None);
    assert_eq!(
        Err(ArgumentError::MissingArgument {
            which: Argument::Query
        }),
        made
    );
    assert_eq!("Query string not present", made.unwrap_err().message());
}

#[test]
fn config_missing_everything_reports_the_query() {
    let made = Config::new(Vec::new(), Some(String::new()));
    assert_eq!(
        Err(ArgumentError::MissingArgument {
            which: Argument::Query
        }),
        made
    );
}

#[test]
fn config_ignores_further_arguments() {
    let config = Config::new(
        args(&["minigrep", "needle", "haystack.txt", "more", "and more"]),
        None,
    )
    .unwrap();
    assert_eq!("needle", config.query);
    assert_eq!("haystack.txt", config.filename);
    assert!(config.case_sensitive);
}

#[test]
fn config_takes_arguments_as_they_come() {
    let config = Config::new(args(&["", "", ""]), None).unwrap();
    assert_eq!("", config.query);
    assert_eq!("", config.filename);
}

#[test]
fn messages_name_the_missing_argument() {
    let query = ArgumentError::MissingArgument {
        which: Argument::Query,
    };
    let filename = ArgumentError::MissingArgument {
        which: Argument::Filename,
    };
    assert_eq!("Query string not present", query.message());
    assert_eq!("Filename not present", filename.message());
    assert_ne!(query, filename);
}
