use pwned_check::digests::{hex_digest, to_hex, Digests};
use pwned_check::string_set::StringSet;
use pwned_check::scan::{entry_label, index_credentials};

fn set_of(s: &StringSet) -> Vec<String> {
    s.items().clone()
}

#[test]
fn hex_rendering_of_digest() {
    let mut b = [0u8; 20];
    b[0] = 0x5b;
    b[1] = 0xaa;
    b[2] = 0x61;
    b[19] = 0xff;
    assert_eq!(to_hex(&b), "5baa6100000000000000000000000000000000ff");
    assert_eq!(to_hex(&b).len(), 40);
}

#[test]
fn sha1_of_known_password() {
    assert_eq!(hex_digest("password"), "5baa61e4c9b93f3f0682250b6cf8331b7ee68fd8");
    assert_eq!(hex_digest("password123"), "cbfdac6008f9cab4083784cbd1874f76618d2a97");
    assert_eq!(hex_digest(""), "da39a3ee5e6b4b0d3255bfef95601890afd80709");
}

#[test]
fn empty_index_has_no_prefixes() {
    let d = Digests::new();
    assert_eq!(d.len(), 0);
    assert_eq!(Digests::default().len(), 0);
}

#[test]
fn same_prefix_two_digests_one_bucket() {
    let mut a = [0u8; 20];
    a[0] = 0x12;
    a[1] = 0x34;
    a[2] = 0x50;
    let mut b = a;
    b[19] = 1;
    let mut d = Digests::new();
    d.upsert(a, "one".to_string());
    d.upsert(b, "two".to_string());
    assert_eq!(d.len(), 1);
    assert_eq!(d.prefix(0), "12345");
    let bucket = d.bucket(0);
    assert_eq!(bucket.len(), 2);
    assert_eq!(bucket.digest(0), &to_hex(&a));
    assert_eq!(bucket.digest(1), &to_hex(&b));
    assert_eq!(set_of(bucket.names(0)), vec!["one".to_string()]);
    assert_eq!(set_of(bucket.names(1)), vec!["two".to_string()]);
}

#[test]
fn same_name_twice_is_one_entry() {
    let mut d = Digests::new();
    let mut digest = [0u8; 20];
    digest[3] = 0x42;
    d.upsert(digest, "mail".to_string());
    d.upsert(digest, "mail".to_string());
    assert_eq!(d.len(), 1);
    assert_eq!(d.bucket(0).len(), 1);
    assert_eq!(d.bucket(0).names(0).len(), 1);
}

#[test]
fn prefixes_come_in_ascending_order() {
    let mut d = Digests::new();
    for (i, first) in [0xf0u8, 0x01, 0x80, 0x01].iter().enumerate() {
        let mut b = [0u8; 20];
        b[0] = *first;
        b[19] = i as u8;
        d.upsert(b, format!("n{i}"));
    }
    assert_eq!(d.len(), 3);
    assert_eq!(d.prefix(0), "01000");
    assert_eq!(d.prefix(1), "80000");
    assert_eq!(d.prefix(2), "f0000");
    assert_eq!(d.bucket(0).len(), 2);
}

#[test]
fn names_under_one_digest_are_sorted() {
    let mut d = Digests::new();
    let digest = [7u8; 20];
    d.upsert(digest, "zeta".to_string());
    d.upsert(digest, "alpha".to_string());
    d.upsert(digest, "mid".to_string());
    assert_eq!(
        set_of(d.bucket(0).names(0)),
        vec!["alpha".to_string(), "mid".to_string(), "zeta".to_string()]
    );
}

#[test]
fn indexing_credentials_groups_by_prefix() {
    let creds = vec![
        ("a".to_string(), "password".to_string()),
        ("b".to_string(), "password".to_string()),
        ("c".to_string(), "password123".to_string()),
    ];
    let d = index_credentials(&creds);
    assert_eq!(d.len(), 2);
    assert_eq!(d.prefix(0), "5baa6");
    assert_eq!(d.prefix(1), "cbfda");
    assert_eq!(set_of(d.bucket(0).names(0)), vec!["a".to_string(), "b".to_string()]);
}

#[test]
fn label_joins_groups_and_title() {
    let path = vec!["Root".to_string(), "Web".to_string()];
    assert_eq!(entry_label(&path, Some("GitHub")), "Root -> Web -> GitHub");
    assert_eq!(entry_label(&vec!["Root".to_string()], None), "Root -> (untitled)");
}

#[test]
fn string_set_insert_and_contains() {
    let mut s = StringSet::new();
    assert!(s.is_empty());
    s.insert("b".to_string());
    s.insert("a".to_string());
    s.insert("b".to_string());
    assert_eq!(s.len(), 2);
    assert!(s.contains("a"));
    assert!(!s.contains("c"));
    assert_eq!(set_of(&s), vec!["a".to_string(), "b".to_string()]);
}
