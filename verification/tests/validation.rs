use datalog::predicates::{Pred, Predicate, Stmt, ValidationError, ID};

fn lit(text: &str) -> ID {
    ID::Literal(text.to_string())
}

fn var(name: &str) -> ID {
    ID::Variable(name.to_string())
}

#[test]
fn names_are_checked() {
    assert_eq!(Pred::new("", vec![lit("a")]), Err(ValidationError::EmptyName));
    assert_eq!(Pred::new("foo bar", vec![]), Err(ValidationError::InvalidName));
    for bad in ["f(", "f)", "a,b", "a.b", "a?", "a:-b", ":-", "a\tb", "a\nb", "a\rb", "a\u{c}b"] {
        assert_eq!(Pred::new(bad, vec![]), Err(ValidationError::InvalidName));
    }
    for good in ["foo", "foo-bar_9", "a:b", "it's", "a\\b", "'a'", "a:", "-:", "a-:b", "\u{e9}"] {
        let pred = Pred::new(good, vec![]).unwrap();
        assert_eq!(pred.name(), good);
        assert_eq!(pred.len(), 0);
        assert!(pred.is_empty());
    }
    let pred = Pred::new("a:b", vec![lit("x"), var("Y")]).unwrap();
    assert_eq!(pred.name(), "a:b");
    assert_eq!(pred.ids(), &vec![lit("x"), var("Y")]);
    assert_eq!(pred.len(), 2);
    assert!(!pred.is_empty());
}

#[test]
fn identifiers_are_checked() {
    assert_eq!(lit("").validate(), Err(ValidationError::EmptyLiteral));
    assert_eq!(var("").validate(), Err(ValidationError::EmptyVariable));
    assert_eq!(var("X Y").validate(), Err(ValidationError::InvalidVariable));
    assert_eq!(var("X)").validate(), Err(ValidationError::InvalidVariable));
    assert_eq!(var("a:-b").validate(), Err(ValidationError::InvalidVariable));
    assert_eq!(var("'X").validate(), Err(ValidationError::InvalidVariable));
    assert_eq!(var("'").validate(), Err(ValidationError::InvalidVariable));
    assert_eq!(var("X'").validate(), Ok(()));
    assert_eq!(var("a:b").validate(), Ok(()));
    assert_eq!(var("a\\b").validate(), Ok(()));
    assert_eq!(ID::FreeVariable("".to_string()).validate(), Err(ValidationError::EmptyVariable));
    assert_eq!(
        ID::FreeVariable("a,b".to_string()).validate(),
        Err(ValidationError::InvalidVariable)
    );
    assert_eq!(lit(" any text, even (this). ").validate(), Ok(()));
    assert_eq!(var("X").validate(), Ok(()));
    assert_eq!(ID::FreeVariable("_".to_string()).validate(), Ok(()));
}

#[test]
fn arguments_are_checked_in_order() {
    assert_eq!(Pred::new("p", vec![lit("a"), lit("")]), Err(ValidationError::EmptyLiteral));
    assert_eq!(Pred::new("p", vec![var(""), lit("")]), Err(ValidationError::EmptyVariable));
    assert_eq!(Pred::new("p", vec![var("a b"), var("")]), Err(ValidationError::InvalidVariable));
    assert_eq!(Pred::new("", vec![lit("")]), Err(ValidationError::EmptyName));
    assert_eq!(
        Pred::from_parts("p".to_string(), vec![lit("a"), var("")]),
        Err(ValidationError::EmptyVariable)
    );
    assert_eq!(
        Pred::from_parts("p".to_string(), vec![lit("a")]),
        Pred::new("p", vec![lit("a")])
    );
}

#[test]
fn facts_must_be_ground() {
    let ground = Pred::new("foo", vec![lit("bar"), lit("baz")]).unwrap();
    assert_eq!(
        Stmt::fact(ground),
        Ok(Stmt::Fact(Pred::new("foo", vec![lit("bar"), lit("baz")]).unwrap()))
    );
    let open = Pred::new("foo", vec![lit("bar"), var("X")]).unwrap();
    assert_eq!(Stmt::fact(open), Err(ValidationError::NonGroundFact));
    let free = Pred::new("foo", vec![ID::FreeVariable("X".to_string())]).unwrap();
    assert_eq!(Stmt::fact(free), Err(ValidationError::NonGroundFact));
    let none = Pred::new("foo", vec![]).unwrap();
    assert!(Stmt::fact(none).is_ok());
}

#[test]
fn rules_need_a_body() {
    let head = Pred::new("foo", vec![var("X")]).unwrap();
    assert_eq!(Stmt::rule(head, vec![]), Err(ValidationError::EmptyBody));
    let head = Pred::new("foo", vec![var("X")]).unwrap();
    let body = vec![Pred::new("bar", vec![var("X")]).unwrap()];
    let rule = Stmt::rule(head, body).unwrap();
    assert_eq!(rule.render(), "foo(X) :- bar(X).");
}

#[test]
fn queries_take_anything() {
    let query = Stmt::query(Pred::new("foo", vec![lit("bar"), var("X")]).unwrap());
    assert_eq!(query.validate(), Ok(()));
    assert_eq!(query.render(), "foo('bar',X)?");
}

#[test]
fn statements_built_directly_are_checked() {
    let fact = Stmt::Fact(Pred::new("foo", vec![var("X")]).unwrap());
    assert_eq!(fact.validate(), Err(ValidationError::NonGroundFact));
    let fact = Stmt::Fact(Pred::new("foo", vec![lit("x")]).unwrap());
    assert_eq!(fact.validate(), Ok(()));
    let rule = Stmt::Rule(Pred::new("foo", vec![]).unwrap(), vec![]);
    assert_eq!(rule.validate(), Err(ValidationError::EmptyBody));
    let rule = Stmt::Rule(
        Pred::new("foo", vec![]).unwrap(),
        vec![Pred::new("bar", vec![]).unwrap(), Pred::new("baz", vec![var("Z")]).unwrap()],
    );
    assert_eq!(rule.validate(), Ok(()));
    let query = Stmt::Query(Pred::new("foo", vec![var("X")]).unwrap());
    assert_eq!(query.validate(), Ok(()));
}
