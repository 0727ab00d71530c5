use servum::config::{parse_usize, CliError, Config, ParseOutcome};

fn args(list: &[&str]) -> Vec<String> {
    list.iter().map(|a| a.to_string()).collect()
}

#[test]
fn defaults() {
    let conf = Config::with_base_dir(b"/srv".to_vec());
    assert_eq!(conf.address, "127.0.0.1");
    assert_eq!(conf.port, 8080);
    assert_eq!(conf.threads, 4);
    assert!(conf.verbose && conf.list_dir);
}

#[test]
fn options_and_flags() {
    let a = args(&["--base-dir", "/tmp/x", "-p", "9000", "--threads=8", "-q", "--no-list-dir", "-a", "0.0.0.0"]);
    let mut conf = Config::with_base_dir(b"/srv".to_vec());
    let r = Config::parse_args(&a, &mut conf);
    assert!(matches!(r, Ok(ParseOutcome::Run)));
    assert_eq!(conf.base_dir, b"/tmp/x".to_vec());
    assert_eq!(conf.port, 9000);
    assert_eq!(conf.threads, 8);
    assert!(!conf.verbose);
    assert!(!conf.list_dir);
    assert_eq!(conf.address, "0.0.0.0");
}

#[test]
fn help_requests() {
    let mut conf = Config::with_base_dir(b"/srv".to_vec());
    assert!(matches!(Config::parse_args(&args(&["-h", "--bogus"]), &mut conf), Ok(ParseOutcome::ShortHelp)));
    assert!(matches!(Config::parse_args(&args(&["--help"]), &mut conf), Ok(ParseOutcome::LongHelp)));
    assert!(Config::help_long().starts_with("servum 1.0.0"));
    assert!(Config::help_short().contains("-h, --help:                 Show this help."));
}

#[test]
fn argument_errors() {
    let mut conf = Config::with_base_dir(b"/srv".to_vec());
    let a = args(&["--port", "eighty"]);
    match Config::parse_args(&a, &mut conf) {
        Err(CliError::InvalidVal(name, val)) => {
            assert_eq!(name, "--port");
            assert_eq!(val, "eighty");
        },
        _ => panic!("expected an invalid value"),
    }
    let a = args(&["-t"]);
    match Config::parse_args(&a, &mut conf) {
        Err(e @ CliError::MissingVal(_)) => assert_eq!(e.to_string(), "Missing value for argument -t"),
        _ => panic!("expected a missing value"),
    }
    let a = args(&["--colour=red=blue"]);
    match Config::parse_args(&a, &mut conf) {
        Err(e @ CliError::InvalidArg(_)) => assert_eq!(e.to_string(), "Invalid argument --colour found."),
        _ => panic!("expected an invalid argument"),
    }
    let a = args(&["-a=1.2.3.4=5"]);
    assert!(matches!(Config::parse_args(&a, &mut conf), Ok(ParseOutcome::Run)));
    assert_eq!(conf.address, "1.2.3.4");
}

#[test]
fn decimal_numbers() {
    assert_eq!(parse_usize(b"8080"), Some(8080));
    assert_eq!(parse_usize(b"+7"), Some(7));
    assert_eq!(parse_usize(b"+"), None);
    assert_eq!(parse_usize(b""), None);
    assert_eq!(parse_usize(b"-1"), None);
    assert_eq!(parse_usize(b"12a"), None);
    assert_eq!(parse_usize(b"18446744073709551615"), Some(usize::MAX));
    assert_eq!(parse_usize(b"18446744073709551616"), None);
}
