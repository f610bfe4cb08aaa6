use filesearch::cli::{parse_arguments, parse_usize, ArgError, Command};
use filesearch::scan::SearchMode;

fn args(v: &[&str]) -> Vec<String> {
    v.iter().map(|s| s.to_string()).collect()
}

#[test]
fn decimal_numbers() {
    assert_eq!(parse_usize("0"), Some(0));
    assert_eq!(parse_usize("42"), Some(42));
    assert_eq!(parse_usize("+7"), Some(7));
    assert_eq!(parse_usize("007"), Some(7));
    assert_eq!(parse_usize(""), None);
    assert_eq!(parse_usize("+"), None);
    assert_eq!(parse_usize("-1"), None);
    assert_eq!(parse_usize("12a"), None);
    assert_eq!(parse_usize(" 1"), None);
    assert_eq!(parse_usize("18446744073709551615"), Some(usize::MAX));
    assert_eq!(parse_usize("18446744073709551616"), None);
    assert_eq!(parse_usize("99999999999999999999x"), None);
}

#[test]
fn decimal_numbers_agree_with_std() {
    for s in ["1", "+1", "++1", "", "00", "4294967296", "1_000", "٣"] {
        assert_eq!(parse_usize(s), s.parse::<usize>().ok(), "{:?}", s);
    }
}

#[test]
fn too_few_arguments() {
    assert!(matches!(parse_arguments(&args(&["fs", "/FM"]), None, 4), Err(ArgError::Insufficient)));
}

#[test]
fn help_and_unknown_mode() {
    assert!(matches!(parse_arguments(&args(&["fs", "--help", "x"]), None, 4), Ok(Command::Help)));
    assert!(matches!(parse_arguments(&args(&["fs", "/?", "x"]), None, 4), Ok(Command::Help)));
    match parse_arguments(&args(&["fs", "/XX", "q"]), None, 4) {
        Err(ArgError::UnknownMode(m)) => assert_eq!(m, "/XX"),
        _ => panic!("expected an unknown mode"),
    }
}

#[test]
fn defaults_and_working_directory() {
    match parse_arguments(&args(&["fs", "-f", "*.txt"]), Some("/home/u".to_string()), 6) {
        Ok(Command::Search(c)) => {
            assert_eq!(c.query, "*.txt");
            assert_eq!(c.start_dir, "/home/u");
            assert_eq!(c.mode, SearchMode::File);
            assert_eq!(c.max_threads, 6);
            assert!(c.use_wildcards && c.case_sensitive && c.breadth_first);
            assert!(c.log_path.is_none() && c.max_depth.is_none());
        }
        _ => panic!("expected a search"),
    }
    assert!(matches!(
        parse_arguments(&args(&["fs", "-f", "x"]), None, 6),
        Err(ArgError::NoWorkingDirectory)
    ));
}

#[test]
fn all_options() {
    let line = args(&[
        "fs", "/BOTH", "log", "/var", "-t", "3", "--log", "out.txt", "-i", "-D", "2", "--dfs",
        "-nw", "stray",
    ]);
    match parse_arguments(&line, None, 8) {
        Ok(Command::Search(c)) => {
            assert_eq!(c.mode, SearchMode::Both);
            assert_eq!(c.start_dir, "/var");
            assert_eq!(c.max_threads, 3);
            assert_eq!(c.log_path, Some("out.txt".to_string()));
            assert!(!c.case_sensitive);
            assert_eq!(c.max_depth, Some(2));
            assert!(!c.breadth_first);
            assert!(!c.use_wildcards);
        }
        _ => panic!("expected a search"),
    }
}

fn invalid_value(line: &[&str]) -> (String, String) {
    match parse_arguments(&args(line), None, 5) {
        Err(ArgError::InvalidValue(option, value)) => (option, value),
        _ => panic!("expected an invalid value"),
    }
}

#[test]
fn unreadable_option_values_are_refused() {
    assert_eq!(
        invalid_value(&["fs", "-f", "q", ".", "--depth", "abc"]),
        ("--depth".to_string(), "abc".to_string())
    );
    assert_eq!(
        invalid_value(&["fs", "-d", "x", ".", "--threads", "many"]),
        ("--threads".to_string(), "many".to_string())
    );
    assert_eq!(
        invalid_value(&["fs", "-d", "x", ".", "-D", "-1"]),
        ("-D".to_string(), "-1".to_string())
    );
}

#[test]
fn zero_workers_are_refused() {
    assert_eq!(
        invalid_value(&["fs", "-f", "q", ".", "-t", "0"]),
        ("-t".to_string(), "0".to_string())
    );
    match parse_arguments(&args(&["fs", "-f", "q", "."]), None, 0) {
        Ok(Command::Search(c)) => assert_eq!(c.max_threads, 1),
        _ => panic!("expected a search"),
    }
}

#[test]
fn option_without_its_value() {
    for opt in ["--threads", "-l", "--depth"] {
        match parse_arguments(&args(&["fs", "-d", "x", ".", opt]), None, 5) {
            Err(ArgError::MissingValue(o)) => assert_eq!(o, opt),
            _ => panic!("expected a missing value"),
        }
    }
}

#[test]
fn depth_zero_is_a_limit() {
    match parse_arguments(&args(&["fs", "-d", "x", ".", "-D", "0"]), None, 5) {
        Ok(Command::Search(c)) => assert_eq!(c.max_depth, Some(0)),
        _ => panic!("expected a search"),
    }
}

#[test]
fn unknown_option() {
    match parse_arguments(&args(&["fs", "/SDM", "x", ".", "--fast"]), None, 2) {
        Err(ArgError::UnknownOption(o)) => assert_eq!(o, "--fast"),
        _ => panic!("expected an unknown option"),
    }
}
