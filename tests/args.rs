use segget::args::{validate_url, ArgsError, Args};

#[test]
fn args_validation() {
    let args = Args {
        link: "https://example.com".to_string(),
        output: "/tmp/".to_string(),
        threads: 4,
        retries: 3,
        timeout: 10,
    };
    assert_eq!(args.validate().is_ok(), true);
}

#[test]
fn args_validation_invalid_url() {
    let args = Args {
        link: "example.comodo".to_string(),
        output: "/tmp/".to_string(),
        threads: 4,
        retries: 3,
        timeout: 10,
    };
    assert_eq!(args.validate().is_err(), true);
}

#[test]
fn url_validation() {
    assert_eq!(validate_url("https://example.com").is_ok(), true);
    assert_eq!(validate_url("http://example.com").is_ok(), true);
    assert_eq!(validate_url("example.com").is_err(), true);
    assert_eq!(validate_url("").is_err(), true);
}

#[test]
fn url_validation_messages() {
    assert_eq!(validate_url(""), Err("The link is empty".to_string()));
    assert_eq!(validate_url("ftp://example.com"), Err("The link is not valid".to_string()));
    assert_eq!(validate_url("http:/"), Err("The link is not valid".to_string()));
}

#[test]
fn args_validation_lists_every_problem() {
    let args = Args {
        link: "example.comodo".to_string(),
        output: ".".to_string(),
        threads: 0,
        retries: 11,
        timeout: 61,
    };
    assert_eq!(
        args.validate(),
        Err(vec![
            ArgsError::InvalidLink,
            ArgsError::ThreadsOutOfRange,
            ArgsError::RetriesOutOfRange,
            ArgsError::TimeoutOutOfRange
        ])
    );
}

#[test]
fn args_validation_bounds_are_inclusive() {
    let low = Args {
        link: "http://localhost:80".to_string(),
        output: ".".to_string(),
        threads: 1,
        retries: 1,
        timeout: 1,
    };
    assert!(low.validate().is_ok());
    let high = Args { threads: 32, retries: 10, timeout: 60, ..low.clone() };
    assert!(high.validate().is_ok());
    let over = Args { threads: 33, ..low };
    assert_eq!(over.validate(), Err(vec![ArgsError::ThreadsOutOfRange]));
}

#[test]
fn args_error_messages() {
    assert_eq!(ArgsError::InvalidLink.message(), "The link is not valid");
    assert_eq!(
        ArgsError::ThreadsOutOfRange.message(),
        "The number of threads must be between 1 and 32"
    );
    assert_eq!(
        ArgsError::RetriesOutOfRange.message(),
        "The number of retries must be between 1 and 10"
    );
    assert_eq!(ArgsError::TimeoutOutOfRange.message(), "The timeout must be between 1 and 60");
}
