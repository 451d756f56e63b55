use port_sniffer::config::{
    address_argument, check_count, help_requested, is_help, parse_args, parse_worker_count, resolve,
    resolve_with, ConfigError, ScanConfig, TargetAddress, DEFAULT_WORKERS, USAGE,
};

fn args(words: &[&str]) -> Vec<String> {
    words.iter().map(|word| word.to_string()).collect()
}

const HOST: TargetAddress = TargetAddress::V4([10, 0, 0, 1]);

fn reader(text: &str) -> Option<TargetAddress> {
    match text {
        "10.0.0.1" => Some(HOST),
        "::1" => Some(TargetAddress::V6([0, 0, 0, 0, 0, 0, 0, 1])),
        _ => None,
    }
}

#[test]
fn help_flag_gives_help_requested() {
    assert_eq!(resolve(&args(&["prog", "-h"]), None), Err(ConfigError::HelpRequested));
    assert_eq!(resolve(&args(&["prog", "--help"]), None), Err(ConfigError::HelpRequested));
}

#[test]
fn default_is_four_workers() {
    assert_eq!(DEFAULT_WORKERS, 4);
}

#[test]
fn address_alone_gives_four_workers() {
    let config = resolve(&args(&["prog", "10.0.0.1"]), Some(HOST)).unwrap();
    assert_eq!(config.workers(), 4);
    assert_eq!(config.target(), HOST);
    assert_eq!(Some(config), ScanConfig::new(HOST, DEFAULT_WORKERS));
}

#[test]
fn worker_flag_gives_the_named_count() {
    let config = resolve(&args(&["prog", "-j", "50", "10.0.0.1"]), Some(HOST)).unwrap();
    assert_eq!(config.workers(), 50);
    assert_eq!(config.target(), HOST);
}

#[test]
fn worker_count_that_is_no_number_is_refused() {
    assert_eq!(
        resolve(&args(&["prog", "-j", "abc", "10.0.0.1"]), Some(HOST)),
        Err(ConfigError::ThreadCountParseError)
    );
}

#[test]
fn address_that_is_none_is_refused_after_the_worker_flag() {
    assert_eq!(
        resolve(&args(&["prog", "-j", "50", "not-an-ip"]), None),
        Err(ConfigError::AddressParseError)
    );
}

#[test]
fn program_name_alone_is_too_few_arguments() {
    assert_eq!(resolve(&args(&["prog"]), None), Err(ConfigError::ArgumentCountError));
    assert_eq!(resolve(&args(&[]), None), Err(ConfigError::ArgumentCountError));
}

#[test]
fn five_arguments_are_too_many() {
    assert_eq!(
        resolve(&args(&["prog", "-j", "50", "10.0.0.1", "extra"]), Some(HOST)),
        Err(ConfigError::ArgumentCountError)
    );
}

#[test]
fn help_comes_before_every_other_check() {
    assert_eq!(resolve(&args(&["-h"]), None), Err(ConfigError::HelpRequested));
    assert_eq!(
        resolve(&args(&["prog", "a", "b", "c", "d", "--help"]), None),
        Err(ConfigError::HelpRequested)
    );
    assert_eq!(
        resolve(&args(&["prog", "-j", "abc", "-h"]), None),
        Err(ConfigError::HelpRequested)
    );
    assert_eq!(
        resolve(&args(&["prog", "-j", "10", "-h"]), Some(HOST)),
        Err(ConfigError::HelpRequested)
    );
}

#[test]
fn worker_count_comes_before_the_address() {
    assert_eq!(
        resolve(&args(&["prog", "-j", "abc", "not-an-ip"]), None),
        Err(ConfigError::ThreadCountParseError)
    );
}

#[test]
fn zero_workers_are_refused() {
    assert_eq!(
        resolve(&args(&["prog", "-j", "0", "10.0.0.1"]), Some(HOST)),
        Err(ConfigError::ThreadCountParseError)
    );
    assert_eq!(ScanConfig::new(HOST, 0), None);
}

#[test]
fn worker_count_is_a_16_bit_number() {
    let config = resolve(&args(&["prog", "-j", "65535", "10.0.0.1"]), Some(HOST)).unwrap();
    assert_eq!(config.workers(), 65535);
    assert_eq!(
        resolve(&args(&["prog", "-j", "65536", "10.0.0.1"]), Some(HOST)),
        Err(ConfigError::ThreadCountParseError)
    );
    assert_eq!(
        resolve(&args(&["prog", "-j", "-1", "10.0.0.1"]), Some(HOST)),
        Err(ConfigError::ThreadCountParseError)
    );
}

#[test]
fn other_shapes_are_invalid() {
    assert_eq!(
        resolve(&args(&["prog", "not-an-ip"]), None),
        Err(ConfigError::InvalidArgumentsError)
    );
    assert_eq!(resolve(&args(&["prog", "-j"]), None), Err(ConfigError::InvalidArgumentsError));
    assert_eq!(
        resolve(&args(&["prog", "-j", "50"]), None),
        Err(ConfigError::InvalidArgumentsError)
    );
    assert_eq!(
        resolve(&args(&["prog", "10.0.0.1", "extra"]), Some(HOST)),
        Err(ConfigError::InvalidArgumentsError)
    );
    assert_eq!(
        resolve(&args(&["prog", "10.0.0.1", "-j", "50"]), Some(HOST)),
        Err(ConfigError::InvalidArgumentsError)
    );
    assert_eq!(
        resolve(&args(&["prog", "-J", "50", "10.0.0.1"]), Some(HOST)),
        Err(ConfigError::InvalidArgumentsError)
    );
}

#[test]
fn help_flags_are_told_from_other_words() {
    assert!(is_help("-h"));
    assert!(is_help("--help"));
    assert!(!is_help("-help"));
    assert!(!is_help("--h"));
    assert!(!is_help("-H"));
    assert!(!is_help("-h "));
    assert!(!is_help(""));
    assert!(!is_help("-\u{4e2d}"));
    assert!(help_requested(&args(&["prog", "x", "--help"])));
    assert!(help_requested(&args(&["-h"])));
    assert!(!help_requested(&args(&["prog", "-j", "5", "::1"])));
    assert!(!help_requested(&args(&[])));
}

#[test]
fn count_check_accepts_two_to_four_arguments() {
    assert_eq!(check_count(&args(&[])), Err(ConfigError::ArgumentCountError));
    assert_eq!(check_count(&args(&["prog"])), Err(ConfigError::ArgumentCountError));
    assert_eq!(check_count(&args(&["prog", "a"])), Ok(()));
    assert_eq!(check_count(&args(&["prog", "a", "b"])), Ok(()));
    assert_eq!(check_count(&args(&["prog", "a", "b", "c"])), Ok(()));
    assert_eq!(
        check_count(&args(&["prog", "a", "b", "c", "d"])),
        Err(ConfigError::ArgumentCountError)
    );
}

#[test]
fn worker_counts_are_positive_decimal_numbers() {
    assert_eq!(parse_worker_count("1"), Some(1));
    assert_eq!(parse_worker_count("50"), Some(50));
    assert_eq!(parse_worker_count("+50"), Some(50));
    assert_eq!(parse_worker_count("007"), Some(7));
    assert_eq!(parse_worker_count("65535"), Some(65535));
    assert_eq!(parse_worker_count("0"), None);
    assert_eq!(parse_worker_count("000"), None);
    assert_eq!(parse_worker_count("65536"), None);
    assert_eq!(parse_worker_count(""), None);
    assert_eq!(parse_worker_count("+"), None);
    assert_eq!(parse_worker_count("-5"), None);
    assert_eq!(parse_worker_count(" 5"), None);
    assert_eq!(parse_worker_count("5 "), None);
    assert_eq!(parse_worker_count("5_000"), None);
    assert_eq!(parse_worker_count("abc"), None);
    assert_eq!(parse_worker_count("0x10"), None);
}

#[test]
fn shape_decides_a_command_line_of_accepted_length() {
    assert_eq!(
        parse_args(&args(&["prog", "::1"]), Some(HOST)),
        Ok(ScanConfig::new(HOST, 4).unwrap())
    );
    assert_eq!(
        parse_args(&args(&["prog", "-j", "8", "::1"]), Some(HOST)),
        Ok(ScanConfig::new(HOST, 8).unwrap())
    );
    assert_eq!(
        parse_args(&args(&["prog", "a", "b"]), Some(HOST)),
        Err(ConfigError::InvalidArgumentsError)
    );
    assert_eq!(parse_args(&args(&["prog"]), Some(HOST)), Err(ConfigError::InvalidArgumentsError));
}

#[test]
fn address_argument_is_the_one_the_resolution_hinges_on() {
    assert_eq!(address_argument(&args(&["prog", "10.0.0.1"])), Some(1));
    assert_eq!(address_argument(&args(&["prog", "whatever"])), Some(1));
    assert_eq!(address_argument(&args(&["prog", "-j", "50", "10.0.0.1"])), Some(3));
    assert_eq!(address_argument(&args(&["prog", "-j", "abc", "10.0.0.1"])), None);
    assert_eq!(address_argument(&args(&["prog", "-j", "0", "10.0.0.1"])), None);
    assert_eq!(address_argument(&args(&["prog", "-h"])), None);
    assert_eq!(address_argument(&args(&["prog", "-j", "50", "-h"])), None);
    assert_eq!(address_argument(&args(&["prog"])), None);
    assert_eq!(address_argument(&args(&["prog", "a", "b"])), None);
    assert_eq!(address_argument(&args(&["prog", "a", "b", "c"])), None);
    assert_eq!(address_argument(&args(&["prog", "a", "b", "c", "d"])), None);
}

#[test]
fn resolve_with_reads_the_address_argument() {
    assert_eq!(resolve_with(&args(&["prog", "-h"]), reader), Err(ConfigError::HelpRequested));
    assert_eq!(
        resolve_with(&args(&["prog", "10.0.0.1"]), reader),
        Ok(ScanConfig::new(HOST, 4).unwrap())
    );
    assert_eq!(
        resolve_with(&args(&["prog", "-j", "50", "10.0.0.1"]), reader),
        Ok(ScanConfig::new(HOST, 50).unwrap())
    );
    assert_eq!(
        resolve_with(&args(&["prog", "-j", "abc", "10.0.0.1"]), reader),
        Err(ConfigError::ThreadCountParseError)
    );
    assert_eq!(
        resolve_with(&args(&["prog", "-j", "50", "not-an-ip"]), reader),
        Err(ConfigError::AddressParseError)
    );
    assert_eq!(resolve_with(&args(&["prog"]), reader), Err(ConfigError::ArgumentCountError));
    assert_eq!(
        resolve_with(&args(&["prog", "not-an-ip"]), reader),
        Err(ConfigError::InvalidArgumentsError)
    );
    assert_eq!(
        resolve_with(&args(&["prog", "-j", "2", "::1"]), reader),
        Ok(ScanConfig::new(TargetAddress::V6([0, 0, 0, 0, 0, 0, 0, 1]), 2).unwrap())
    );
}

#[test]
fn resolve_with_calls_the_reader_at_most_once_and_on_the_address_only() {
    let seen = std::cell::RefCell::new(Vec::<String>::new());
    let spy = |text: &str| {
        seen.borrow_mut().push(text.to_string());
        Some(HOST)
    };
    assert!(resolve_with(&args(&["prog", "-j", "9", "host"]), &spy).is_ok());
    assert!(resolve_with(&args(&["prog", "host"]), &spy).is_ok());
    assert!(resolve_with(&args(&["prog", "-j", "x", "skipped"]), &spy).is_err());
    assert!(resolve_with(&args(&["prog", "skipped", "--help"]), &spy).is_err());
    assert!(resolve_with(&args(&["prog", "skipped", "b"]), &spy).is_err());
    assert_eq!(seen.into_inner(), vec!["host".to_string(), "host".to_string()]);
}

#[test]
fn every_outcome_has_its_message() {
    assert_eq!(ConfigError::HelpRequested.message(), USAGE);
    assert_eq!(
        USAGE,
        "Usage: -j to select how many threads you want\n       -h or --help to show this help message"
    );
    assert_eq!(
        ConfigError::ArgumentCountError.message(),
        "Invalid arguments, wrong number of arguments"
    );
    assert_eq!(ConfigError::ThreadCountParseError.message(), "failed to parse thread number");
    assert_eq!(
        ConfigError::AddressParseError.message(),
        "not a valid IPADDR; must be IPv4 or IPv6"
    );
    assert_eq!(ConfigError::InvalidArgumentsError.message(), "Invalid arguments");
}
