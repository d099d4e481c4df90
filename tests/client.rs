use pwned_check::client::{next_step, parse_range, parse_retry_after, Reply, Step};
use pwned_check::error::Error;

#[test]
fn one_record_and_a_blank_line() {
    let set = parse_range("5BAA6", "0018A45C4D1DEF81644B54AB7F969B88D65:3\n\n").unwrap();
    assert_eq!(set.len(), 1);
    assert_eq!(set.items()[0], "5baa60018a45c4d1def81644b54ab7f969b88d65");
}

#[test]
fn crlf_lines_and_counts_are_dropped() {
    let body = "1E4C9B93F3F0682250B6CF8331B7EE68FD8:10\r\n0018A45C4D1DEF81644B54AB7F969B88D65:3\r\n";
    let set = parse_range("5baa6", body).unwrap();
    assert_eq!(set.len(), 2);
    assert!(set.contains("5baa61e4c9b93f3f0682250b6cf8331b7ee68fd8"));
    assert!(set.contains("5baa60018a45c4d1def81644b54ab7f969b88d65"));
}

#[test]
fn empty_body_lists_nothing() {
    assert_eq!(parse_range("00000", "").unwrap().len(), 0);
    assert_eq!(parse_range("00000", "\n  \n\t\n").unwrap().len(), 0);
}

#[test]
fn record_without_colon_is_malformed() {
    assert_eq!(parse_range("5BAA6", "badline").err(), Some(Error::ResponseMalformed));
    assert_eq!(
        parse_range("5BAA6", "0018A45C4D1DEF81644B54AB7F969B88D65:3\nbadline\n").err(),
        Some(Error::ResponseMalformed)
    );
}

#[test]
fn rate_limited_waits_one_second_more() {
    match next_step("5BAA6", Reply::RateLimited(Some(b"2".to_vec()))) {
        Ok(Step::Retry(secs)) => assert_eq!(secs, 3),
        _ => panic!("expected a retry"),
    }
    match next_step("5BAA6", Reply::Body("1E4C9B93F3F0682250B6CF8331B7EE68FD8:1\n".to_string())) {
        Ok(Step::Found(set)) => {
            assert!(set.contains("5baa61e4c9b93f3f0682250b6cf8331b7ee68fd8"))
        }
        _ => panic!("expected an answer"),
    }
}

#[test]
fn retry_after_missing() {
    assert!(matches!(
        next_step("5BAA6", Reply::RateLimited(None)),
        Err(Error::RetryAfterMissing)
    ));
}

#[test]
fn retry_after_malformed() {
    for raw in [&b"abc"[..], b"", b"+", b"-1", b" 2", b"2.5", b"18446744073709551616"] {
        assert!(matches!(
            next_step("5BAA6", Reply::RateLimited(Some(raw.to_vec()))),
            Err(Error::RetryAfterMalformed)
        ));
    }
}

#[test]
fn retry_after_values() {
    assert_eq!(parse_retry_after(&b"+7".to_vec()), Some(7));
    assert_eq!(parse_retry_after(&b"0".to_vec()), Some(0));
    assert_eq!(parse_retry_after(&b"18446744073709551615".to_vec()), Some(u64::MAX));
    assert_eq!(parse_retry_after(&b"18446744073709551616".to_vec()), None);
    match next_step("x", Reply::RateLimited(Some(b"18446744073709551615".to_vec()))) {
        Ok(Step::Retry(secs)) => assert_eq!(secs, u64::MAX),
        _ => panic!("expected a retry"),
    }
}

#[test]
fn other_status_is_an_error() {
    assert!(matches!(
        next_step("5BAA6", Reply::Status(503)),
        Err(Error::ResponseStatus(503))
    ));
}
