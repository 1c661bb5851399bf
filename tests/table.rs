use droute::domain::Domain;
use droute::matchers::{Any, QType, Question};
use droute::rule::{Action, Rule, RuleMatcher};
use droute::table::{Table, TableError};

fn any() -> RuleMatcher {
    RuleMatcher::Any(Any::new())
}

fn question(name: &str, qtype: u16) -> Vec<Question> {
    vec![Question { name: name.to_string(), qtype }]
}

fn error_of(r: Result<Table, TableError>) -> TableError {
    match r {
        Ok(_) => panic!("the table was built"),
        Err(e) => e,
    }
}

#[test]
fn fail_table_recursion() {
    match error_of(Table::new(vec![Rule::new(
        "start".into(),
        any(),
        (Action::query("mock".into()), "end".into()),
        (Action::skip(), "start".into()),
    )])) {
        TableError::RuleRecursion(t) => assert_eq!(t, "start"),
        _ => panic!("Not the right error type"),
    }
}

#[test]
fn fail_multiple_defs() {
    match error_of(Table::new(vec![
        Rule::new(
            "start".into(),
            any(),
            (Action::query("mock".into()), "end".into()),
            (Action::skip(), "start".into()),
        ),
        Rule::new(
            "start".into(),
            any(),
            (Action::query("mock".into()), "end".into()),
            (Action::skip(), "start".into()),
        ),
    ])) {
        TableError::MultipleDef(t) => assert_eq!(t, "start"),
        _ => panic!("Not the right error type"),
    }
}

#[test]
fn success_domain_table() {
    let list = "# domestic\ncn\nbaidu.com\n\n  qq.com  \n".to_string();
    let table = Table::new(vec![Rule::new(
        "start".into(),
        RuleMatcher::Domain(Domain::new(vec![list])),
        (Action::query("mock".into()), "end".into()),
        (Action::query("another_mock".into()), "end".into()),
    )])
    .ok()
    .unwrap();
    assert!(table.used().contains(&"mock".to_string()));
    assert!(table.used().contains(&"another_mock".to_string()));
}

#[test]
fn multiple_def_names_first_repeated_tag() {
    let r = Table::new(vec![
        Rule::new("start".into(), any(), (Action::skip(), "a".into()), (Action::skip(), "end".into())),
        Rule::new("a".into(), any(), (Action::skip(), "end".into()), (Action::skip(), "end".into())),
        Rule::new("a".into(), any(), (Action::skip(), "end".into()), (Action::skip(), "end".into())),
        Rule::new("start".into(), any(), (Action::skip(), "end".into()), (Action::skip(), "end".into())),
    ]);
    match error_of(r) {
        TableError::MultipleDef(t) => assert_eq!(t, "a"),
        _ => panic!("Not the right error type"),
    }
}

#[test]
fn undefined_tag_is_reported() {
    let r = Table::new(vec![Rule::new(
        "start".into(),
        any(),
        (Action::skip(), "missing".into()),
        (Action::skip(), "end".into()),
    )]);
    match error_of(r) {
        TableError::UndefinedTag(t) => assert_eq!(t, "missing"),
        _ => panic!("Not the right error type"),
    }
}

#[test]
fn missing_start_is_undefined() {
    let r = Table::new(vec![Rule::new(
        "other".into(),
        any(),
        (Action::skip(), "end".into()),
        (Action::skip(), "end".into()),
    )]);
    match error_of(r) {
        TableError::UndefinedTag(t) => assert_eq!(t, "start"),
        _ => panic!("Not the right error type"),
    }
}

#[test]
fn cycle_below_start_is_recursion() {
    let r = Table::new(vec![
        Rule::new("start".into(), any(), (Action::skip(), "a".into()), (Action::skip(), "end".into())),
        Rule::new("a".into(), any(), (Action::skip(), "b".into()), (Action::skip(), "end".into())),
        Rule::new("b".into(), any(), (Action::skip(), "end".into()), (Action::skip(), "a".into())),
    ]);
    match error_of(r) {
        TableError::RuleRecursion(t) => assert_eq!(t, "a"),
        _ => panic!("Not the right error type"),
    }
}

#[test]
fn diamond_is_rejected_as_recursion() {
    let r = Table::new(vec![
        Rule::new("start".into(), any(), (Action::skip(), "a".into()), (Action::skip(), "b".into())),
        Rule::new("a".into(), any(), (Action::skip(), "c".into()), (Action::skip(), "end".into())),
        Rule::new("b".into(), any(), (Action::skip(), "c".into()), (Action::skip(), "end".into())),
        Rule::new("c".into(), any(), (Action::skip(), "end".into()), (Action::skip(), "end".into())),
    ]);
    match error_of(r) {
        TableError::RuleRecursion(t) => assert_eq!(t, "c"),
        _ => panic!("Not the right error type"),
    }
}

#[test]
fn used_holds_reachable_upstreams_only() {
    let table = Table::new(vec![
        Rule::new(
            "start".into(),
            any(),
            (Action::query("one".into()), "a".into()),
            (Action::skip(), "end".into()),
        ),
        Rule::new(
            "a".into(),
            any(),
            (Action::skip(), "end".into()),
            (Action::query("two".into()), "end".into()),
        ),
        Rule::new(
            "unreached".into(),
            any(),
            (Action::query("three".into()), "end".into()),
            (Action::skip(), "end".into()),
        ),
    ])
    .ok()
    .unwrap();
    assert!(table.used().contains(&"one".to_string()));
    assert!(table.used().contains(&"two".to_string()));
    assert!(!table.used().contains(&"three".to_string()));
    assert!(!table.used().contains(&"end".to_string()));
}

#[test]
fn single_any_rule_reaches_end_in_one_step() {
    let table = Table::new(vec![Rule::new(
        "start".into(),
        any(),
        (Action::query("mock".into()), "end".into()),
        (Action::skip(), "end".into()),
    )])
    .ok()
    .unwrap();
    let q = question("www.example.com.", 1);
    let (action, next) = table.step(&"start".to_string(), &q).unwrap();
    match action {
        Action::Query(u) => assert_eq!(u, "mock"),
        Action::Skip => panic!("expected a query"),
    }
    assert_eq!(next, "end");
    assert!(table.step(&"nowhere".to_string(), &q).is_none());
}

#[test]
fn qtype_rule_picks_branch() {
    let table = Table::new(vec![Rule::new(
        "start".into(),
        RuleMatcher::QType(QType::new(vec![28, 1])),
        (Action::query("v4v6".into()), "end".into()),
        (Action::query("other".into()), "end".into()),
    )])
    .ok()
    .unwrap();
    let (a, _) = table.step(&"start".to_string(), &question("example.com", 1)).unwrap();
    assert!(matches!(a, Action::Query(u) if u == "v4v6"));
    let (a, _) = table.step(&"start".to_string(), &question("example.com", 15)).unwrap();
    assert!(matches!(a, Action::Query(u) if u == "other"));
}

#[test]
fn domain_rule_picks_branch() {
    let table = Table::new(vec![
        Rule::new(
            "start".into(),
            RuleMatcher::Domain(Domain::new(vec!["example.com".to_string()])),
            (Action::skip(), "local".into()),
            (Action::query("remote".into()), "end".into()),
        ),
        Rule::new(
            "local".into(),
            any(),
            (Action::query("near".into()), "end".into()),
            (Action::skip(), "end".into()),
        ),
    ])
    .ok()
    .unwrap();
    let (a, next) = table.step(&"start".to_string(), &question("www.example.com.", 1)).unwrap();
    assert!(matches!(a, Action::Skip));
    assert_eq!(next, "local");
    let (a, next) = table.step(&"start".to_string(), &question("example.org.", 1)).unwrap();
    assert!(matches!(a, Action::Query(u) if u == "remote"));
    assert_eq!(next, "end");
}

#[test]
fn action_upstreams() {
    assert_eq!(Action::skip().used_upstreams(), Vec::<String>::new());
    assert_eq!(Action::query("mock".into()).used_upstreams(), vec!["mock".to_string()]);
}
