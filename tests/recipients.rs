use uptui::text::{join_recipients, normalize_recipients};

#[test]
fn normalize_trims_lowercases_validates_and_dedupes() {
    let got = normalize_recipients(" Admin@Example.COM, not-an-address ,user@example.com,admin@example.com,,x@y");
    assert_eq!(got, vec!["admin@example.com", "user@example.com"]);
}

#[test]
fn normalize_of_nothing_valid_is_empty() {
    assert!(normalize_recipients("").is_empty());
    assert!(normalize_recipients("foo, bar@baz").is_empty());
}

#[test]
fn join_puts_commas_between() {
    assert_eq!(join_recipients(&vec![]), "");
    assert_eq!(join_recipients(&vec!["a@x.com".to_string()]), "a@x.com");
    assert_eq!(join_recipients(&vec!["a@x.com".to_string(), "b@x.com".to_string()]), "a@x.com,b@x.com");
}
