use droute::domain::Domain;
use droute::matchers::{Any, Matcher, QType, Question};

fn q(name: &str) -> Vec<Question> {
    vec![Question { name: name.to_string(), qtype: 1 }]
}

fn domain(list: &str) -> Domain {
    Domain::new(vec![list.to_string()])
}

#[test]
fn suffix_matches() {
    let d = domain("example.com");
    assert!(d.matches(&q("example.com")));
    assert!(d.matches(&q("www.example.com")));
    assert!(d.matches(&q("a.b.example.com")));
    assert!(!d.matches(&q("notexample.com")));
    assert!(!d.matches(&q("example.org")));
}

#[test]
fn more_specific_does_not_match_parent() {
    let d = domain("a.example.com");
    assert!(!d.matches(&q("example.com")));
    assert!(d.matches(&q("a.example.com")));
}

#[test]
fn trailing_root_dot_is_ignored() {
    let d = domain("example.com");
    assert!(d.matches(&q("www.example.com.")));
}

#[test]
fn empty_matcher_matches_nothing() {
    let d = Domain::empty();
    assert!(!d.matches(&q("example.com")));
    let d = domain("");
    assert!(!d.matches(&q("example.com")));
}

#[test]
fn list_lines_are_trimmed_and_comments_skipped() {
    let d = domain("# example.com\n\n   apple.com \t\r\nbaidu.com");
    assert!(!d.matches(&q("example.com")));
    assert!(d.matches(&q("store.apple.com")));
    assert!(d.matches(&q("baidu.com")));
}

#[test]
fn several_lists() {
    let d = Domain::new(vec!["apple.com".to_string(), "apple.cn\n".to_string()]);
    assert!(d.matches(&q("store.apple.com")));
    assert!(d.matches(&q("www.apple.cn")));
    assert!(!d.matches(&q("apple.org")));
}

#[test]
fn insert_one_domain() {
    let mut d = Domain::empty();
    d.insert("example.net");
    assert!(d.matches(&q("mail.example.net")));
    d.insert_multi("foo.org\nbar.org");
    assert!(d.matches(&q("bar.org")));
    assert!(d.matches(&q("foo.org")));
}

#[test]
fn any_and_qtype() {
    assert!(Any::new().matches(&q("whatever")));
    let t = QType::new(vec![28]);
    assert!(t.matches(&vec![Question { name: "x".to_string(), qtype: 28 }]));
    assert!(!t.matches(&vec![Question { name: "x".to_string(), qtype: 1 }]));
    assert!(!QType::new(vec![]).matches(&q("x")));
}

#[test]
fn matching_ignores_ascii_case() {
    let d = domain("Example.COM");
    assert!(d.matches(&q("www.EXAMPLE.com")));
    assert!(d.matches(&q("example.com")));
    assert!(!d.matches(&q("EXAMPLE.org")));
}

#[test]
fn stored_domain_matches_below_a_deeper_one() {
    let d = domain("example.com\na.example.com");
    assert!(d.matches(&q("b.example.com")));
    assert!(d.matches(&q("x.a.example.com")));
    assert!(d.matches(&q("example.com.")));
    assert!(!d.matches(&q("com")));
}

#[test]
fn adding_a_list_keeps_matches() {
    let one = Domain::new(vec!["example.com".to_string()]);
    let both = Domain::new(vec!["example.com".to_string(), "a.example.com".to_string()]);
    assert!(one.matches(&q("b.example.com")));
    assert!(both.matches(&q("b.example.com")));
}

#[test]
fn list_lines_trim_vertical_tab_and_form_feed() {
    let d = domain("\u{0B}apple.com\u{0C}");
    assert!(d.matches(&q("apple.com")));
}
