use pwned_check::client::parse_range;
use pwned_check::scan::{index_credentials, reconcile, Scan};
use pwned_check::string_set::StringSet;

#[test]
fn shared_breached_password_matches_both_names() {
    let creds = vec![
        ("Alice".to_string(), "password123".to_string()),
        ("Bob".to_string(), "password123".to_string()),
        ("Carol".to_string(), "Xq7!unlikely-to-be-breached-8841".to_string()),
    ];
    let mut scan = Scan::new(index_credentials(&creds));
    let mut queries: Vec<String> = Vec::new();
    while let Some(prefix) = scan.pending() {
        let prefix = prefix.clone();
        let body = if prefix == "cbfda" {
            "C6008F9CAB4083784CBD1874F76618D2A97:250\r\n0000000000000000000000000000000000A:1\r\n"
        } else {
            "0000000000000000000000000000000000B:2\r\n"
        };
        let answer = parse_range(&prefix, body).unwrap();
        scan.answer(&answer);
        queries.push(prefix);
    }
    assert_eq!(queries.len(), 2);
    assert!(queries.contains(&"cbfda".to_string()));
    assert_eq!(scan.matches().items().clone(), vec!["Alice".to_string(), "Bob".to_string()]);
}

#[test]
fn one_query_per_distinct_prefix() {
    let creds = vec![
        ("a".to_string(), "password".to_string()),
        ("b".to_string(), "password".to_string()),
        ("c".to_string(), "password123".to_string()),
        ("d".to_string(), "password".to_string()),
    ];
    let mut scan = Scan::new(index_credentials(&creds));
    let mut queries: Vec<String> = Vec::new();
    while let Some(prefix) = scan.pending() {
        queries.push(prefix.clone());
        scan.answer(&StringSet::new());
    }
    assert_eq!(queries, vec!["5baa6".to_string(), "cbfda".to_string()]);
    assert!(scan.matches().is_empty());
}

#[test]
fn reconcile_adds_only_listed_digests() {
    let creds = vec![
        ("x".to_string(), "password".to_string()),
    ];
    let index = index_credentials(&creds);
    let mut matches = StringSet::new();
    matches.insert("earlier".to_string());
    let listed = parse_range("5baa6", "1E4C9B93F3F0682250B6CF8331B7EE68FD8:5").unwrap();
    reconcile(index.bucket(0), &listed, &mut matches);
    assert_eq!(matches.items().clone(), vec!["earlier".to_string(), "x".to_string()]);
    let unlisted = parse_range("5baa6", "0018A45C4D1DEF81644B54AB7F969B88D65:3").unwrap();
    let mut none = StringSet::new();
    reconcile(index.bucket(0), &unlisted, &mut none);
    assert!(none.is_empty());
}
