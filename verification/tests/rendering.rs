use datalog::predicates::{Pred, Predicate, Stmt, ID};
use datalog::text::{escape, is_ident_char, is_structural, is_whitespace, valid_identifier};

fn lit(text: &str) -> ID {
    ID::Literal(text.to_string())
}

fn var(name: &str) -> ID {
    ID::Variable(name.to_string())
}

#[test]
fn it_works() {
}

#[test]
fn queries() {
    let test = Stmt::Query(
        Pred::new(
            "foo",
            vec![ID::Literal("bar".to_string()), ID::Literal("baz".to_string())],
        )
        .unwrap(),
    );
    assert_eq!(test.render(), "foo('bar','baz')?");

    let single = Stmt::Query(Pred::new("foo", vec![ID::Literal("bar".to_string())]).unwrap());
    assert_eq!(single.render(), "foo('bar')?");
}

#[test]
fn facts() {
    let test = Stmt::Fact(
        Pred::new(
            "foo",
            vec![ID::Literal("bar".to_string()), ID::Literal("baz".to_string())],
        )
        .unwrap(),
    );
    assert_eq!(test.render(), "foo('bar','baz').");

    let single = Stmt::Fact(Pred::new("foo", vec![ID::Literal("bar".to_string())]).unwrap());
    assert_eq!(single.render(), "foo('bar').");
}

#[test]
fn rules() {
    let rule = Stmt::Rule(
        Pred::new("foo", vec![lit("bar")]).unwrap(),
        vec![
            Pred::new("foo", vec![lit("bar")]).unwrap(),
            Pred::new("baz", vec![var("X")]).unwrap(),
        ],
    );
    assert_eq!(rule.render(), "foo('bar') :- foo('bar'), baz(X).");

    let single = Stmt::Rule(
        Pred::new("p", vec![var("X")]).unwrap(),
        vec![Pred::new("q", vec![var("X")]).unwrap()],
    );
    assert_eq!(single.render(), "p(X) :- q(X).");
}

#[test]
fn render_line_ends_with_line_feed() {
    let query = Stmt::Query(Pred::new("foo", vec![lit("bar"), var("X")]).unwrap());
    assert_eq!(query.render_line(), "foo('bar',X)?\n");
    let fact = Stmt::Fact(Pred::new("foo", vec![lit("bar")]).unwrap());
    assert_eq!(fact.render_line(), "foo('bar').\n");
}

#[test]
fn identifiers_render() {
    assert_eq!(lit("bar").render(), "'bar'");
    assert_eq!(var("X").render(), "X");
    assert_eq!(ID::FreeVariable("_Y".to_string()).render(), "_Y");
    assert_eq!(lit("asd'f").render(), "'asd\\'f'");
    assert_eq!(lit("a\\b").render(), "'a\\\\b'");
    assert_eq!(lit("\u{8}\t\n\u{c}\r").render(), "'\\b\\t\\n\\f\\r'");
    assert_eq!(lit("a b,c(d).e?").render(), "'a b,c(d).e?'");
}

#[test]
fn escape_table() {
    assert_eq!(escape(""), "");
    assert_eq!(escape("plain"), "plain");
    assert_eq!(escape("'"), "\\'");
    assert_eq!(escape("\\"), "\\\\");
    assert_eq!(escape("\u{8}"), "\\b");
    assert_eq!(escape("\t"), "\\t");
    assert_eq!(escape("\n"), "\\n");
    assert_eq!(escape("\u{c}"), "\\f");
    assert_eq!(escape("\r"), "\\r");
    assert_eq!(escape("\"btnfr"), "\"btnfr");
    assert_eq!(escape("\u{e9}'\u{e9}"), "\u{e9}\\'\u{e9}");
}

#[test]
fn character_classes() {
    for c in [' ', '\t', '\n', '\u{c}', '\r'] {
        assert!(is_whitespace(c));
        assert!(!is_ident_char(c));
    }
    for c in ['(', ')', ',', '.', '?'] {
        assert!(is_structural(c));
        assert!(!is_ident_char(c));
    }
    for c in ['a', 'Z', '0', '_', '-', ':', '\'', '\\', '\u{e9}'] {
        assert!(!is_whitespace(c));
        assert!(!is_structural(c));
        assert!(is_ident_char(c));
    }
    assert!(valid_identifier("foo_Bar-9"));
    assert!(!valid_identifier(""));
    assert!(!valid_identifier("foo bar"));
    assert!(!valid_identifier("foo.bar"));
    assert!(!valid_identifier("a:-b"));
    assert!(!valid_identifier(":-"));
    assert!(!valid_identifier("a:-"));
    assert!(valid_identifier("a:b"));
    assert!(valid_identifier("a-:b"));
    assert!(valid_identifier("a:"));
    assert!(valid_identifier("-"));
    assert!(valid_identifier("it's"));
}

#[test]
fn predicate_accessors() {
    let empty = Pred::new("halt", vec![]).unwrap();
    assert!(empty.is_empty());
    assert_eq!(empty.len(), 0);
    assert_eq!(empty.name(), "halt");
    assert_eq!(empty.render(), "halt()");
    assert!(empty.is_ground());

    let pred = Pred::new("foo", vec![lit("bar"), var("X")]).unwrap();
    assert!(!pred.is_empty());
    assert_eq!(pred.len(), 2);
    assert_eq!(pred.name(), "foo");
    assert_eq!(pred.ids(), &vec![lit("bar"), var("X")]);
    assert_eq!(pred.render(), "foo('bar',X)");
    assert!(!pred.is_ground());
    assert!(lit("bar").is_ground());
    assert!(!var("X").is_ground());
}

#[test]
fn arity_is_commas_plus_one() {
    for n in 1..6usize {
        let ids: Vec<ID> = (0..n).map(|i| lit(&format!("v{}", i))).collect();
        let pred = Pred::new("p", ids).unwrap();
        let text = pred.render();
        assert_eq!(text.matches(',').count() + 1, pred.len());
    }
    let none = Pred::new("p", vec![]).unwrap();
    assert_eq!(none.render().matches(',').count(), 0);
    let inside = Pred::new("p", vec![lit("a,b")]).unwrap();
    assert_eq!(inside.render(), "p('a,b')");
}
