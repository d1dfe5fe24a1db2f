use updns::matcher::Matcher;
use updns::matcher::WildcardMatch;

#[test]
fn test_create() {}

#[test]
fn test_text() {
    let matcher = Matcher::new("example.com").unwrap();
    assert!(matcher.is_match("example.com"));
    assert!(!matcher.is_match("-example.com"));
    assert!(!matcher.is_match("example.com.cn"));
}

#[test]
fn test_wildcard() {
    let matcher = Matcher::new("*").unwrap();
    assert!(matcher.is_match("localhost"));
    assert!(!matcher.is_match(".localhost"));
    assert!(!matcher.is_match("localhost."));
    assert!(!matcher.is_match("local.host"));

    let matcher = Matcher::new("*.com").unwrap();
    assert!(matcher.is_match("test.com"));
    assert!(matcher.is_match("example.com"));
    assert!(!matcher.is_match("test.test"));
    assert!(!matcher.is_match(".test.com"));
    assert!(!matcher.is_match("test.com."));
    assert!(!matcher.is_match("test.test.com"));

    let matcher = Matcher::new("*.*").unwrap();
    assert!(matcher.is_match("test.test"));
    assert!(!matcher.is_match(".test.test"));
    assert!(!matcher.is_match("test.test."));
    assert!(!matcher.is_match("test.test.test"));

    let matcher = Matcher::new("*.example.com").unwrap();
    assert!(matcher.is_match("test.example.com"));
    assert!(matcher.is_match("example.example.com"));
    assert!(!matcher.is_match("test.example.com.com"));
    assert!(!matcher.is_match("test.test.example.com"));

    let matcher = Matcher::new("*.example.*").unwrap();
    assert!(matcher.is_match("test.example.com"));
    assert!(matcher.is_match("example.example.com"));
    assert!(!matcher.is_match("test.test.example.test"));
    assert!(!matcher.is_match("test.example.test.test"));
}

#[test]
fn test_regex() {
    let matcher = Matcher::new("~^example.com$").unwrap();
    assert!(matcher.is_match("example.com"));
    assert!(!matcher.is_match("test.example.com"));
}

#[test]
fn test_to_string() {}

#[test]
fn glob_single_label_wildcard() {
    // `*.com` accepts exactly one label before `.com`
    let matcher = Matcher::new("*.com").unwrap();
    assert!(matcher.is_match("x.com"));
    assert!(matcher.is_match("example.com"));
    assert!(!matcher.is_match("x.y.com"));
    assert!(!matcher.is_match(".com"));
    assert!(!matcher.is_match("com"));
    assert!(!matcher.is_match("com."));
}

#[test]
fn glob_double_wildcard() {
    let matcher = Matcher::new("*.*").unwrap();
    assert!(matcher.is_match("a.b"));
    assert!(!matcher.is_match("a.b.c"));
    assert!(!matcher.is_match("a"));
    assert!(!matcher.is_match(".a.b"));
    assert!(!matcher.is_match("a.b."));
}

#[test]
fn literal_is_exact() {
    let matcher = Matcher::new("plain.host").unwrap();
    assert!(matcher.is_match("plain.host"));
    assert!(!matcher.is_match("plain.hos"));
    assert!(!matcher.is_match("xplain.host"));
    assert!(!matcher.is_match(""));
}

#[test]
fn bad_regex_is_refused() {
    assert!(Matcher::new("~foo(bar").is_err());
    assert!(Matcher::new("~[").is_err());
}

#[test]
fn matcher_text_round() {
    let matcher = Matcher::new("~^a$").unwrap();
    assert_eq!(matcher.text(), "~^a$");
    let matcher = Matcher::new("*.com").unwrap();
    assert_eq!(matcher.text(), "*.com");
    let matcher = Matcher::new("example.com").unwrap();
    assert_eq!(matcher.text(), "example.com");
}

#[test]
fn wildcard_match_direct() {
    let w = WildcardMatch::new("*.org");
    assert!(w.is_match("wiki.org"));
    assert!(!w.is_match("a.b.org"));
}
