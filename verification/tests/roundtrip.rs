use datalog::parser::{document, literal, statement};
use datalog::predicates::{Pred, Stmt, ID};
use datalog::writer::{Buffer, Writer};

fn lit(text: &str) -> ID {
    ID::Literal(text.to_string())
}

fn var(name: &str) -> ID {
    ID::Variable(name.to_string())
}

#[test]
fn canonical_texts_come_back() {
    for text in [
        "foo('bar','baz').",
        "foo('bar') :- foo('bar'), baz(X).",
        "foo('bar',X)?",
        "halt().",
        "p(X,Y,Z) :- q(X,'a\\'b'), r(Y), s('\\\\',Z).",
        "p('\\b\\t\\n\\f\\r')?",
        "edge-of_map('a b , c')?",
    ] {
        let stmt = statement(text).unwrap();
        assert_eq!(stmt.render(), text);
    }
}

#[test]
fn other_texts_come_back_canonical() {
    let stmt = statement("foo('a\tb') :-bar( X ).").unwrap();
    assert_eq!(stmt.render(), "foo('a\\tb') :- bar(X).");
    assert_eq!(statement(&stmt.render()).unwrap(), stmt);
}

#[test]
fn literals_come_back() {
    for payload in [
        "asdf",
        "asd'f",
        "asd\\'f",
        "'",
        "\\",
        "\\\\",
        "\u{8}",
        "\t",
        "\n",
        "\u{c}",
        "\r",
        "b t n f r",
        "\\n",
        "a'b\\c\u{8}d\te\nf\u{c}g\rh",
        " (.,?:-) ",
        "\u{e9}\u{4e2d}",
    ] {
        let id = lit(payload);
        assert_eq!(literal(&id.render()), Ok(lit(payload)));
    }
}

#[test]
fn statements_come_back() {
    let stmts = vec![
        Stmt::Fact(Pred::new("foo", vec![lit("bar"), lit("it's")]).unwrap()),
        Stmt::Query(Pred::new("foo", vec![var("X"), lit("a\\b\n")]).unwrap()),
        Stmt::Rule(
            Pred::new("foo", vec![var("X")]).unwrap(),
            vec![
                Pred::new("bar", vec![var("X"), var("_")]).unwrap(),
                Pred::new("baz", vec![]).unwrap(),
                Pred::new("qux", vec![lit(", ")]).unwrap(),
            ],
        ),
    ];
    for stmt in stmts {
        assert_eq!(statement(&stmt.render()), Ok(stmt));
    }
}

#[test]
fn free_variables_come_back_as_variables() {
    let query = Stmt::Query(Pred::new("foo", vec![ID::FreeVariable("X".to_string())]).unwrap());
    assert_eq!(query.render(), "foo(X)?");
    assert_eq!(
        statement(&query.render()),
        Ok(Stmt::Query(Pred::new("foo", vec![var("X")]).unwrap()))
    );
}

#[test]
fn sink_keeps_lines_in_order() {
    let mut sink = Buffer::new();
    assert_eq!(sink.as_str(), "");
    let first = Stmt::Fact(Pred::new("foo", vec![lit("bar"), lit("baz")]).unwrap());
    let second = Stmt::Rule(
        Pred::new("foo", vec![lit("bar")]).unwrap(),
        vec![
            Pred::new("foo", vec![lit("bar")]).unwrap(),
            Pred::new("baz", vec![var("X")]).unwrap(),
        ],
    );
    let third = Stmt::Query(Pred::new("foo", vec![lit("bar"), var("X")]).unwrap());
    assert_eq!(sink.add(first), Ok(()));
    assert_eq!(sink.as_str(), "foo('bar','baz').\n");
    assert_eq!(sink.add(second), Ok(()));
    assert_eq!(sink.add(third), Ok(()));
    let text = sink.into_string();
    let lines: Vec<&str> = text.lines().collect();
    assert_eq!(
        lines,
        vec!["foo('bar','baz').", "foo('bar') :- foo('bar'), baz(X).", "foo('bar',X)?"]
    );
    assert!(text.ends_with('\n'));
}

#[test]
fn sink_is_read_back() {
    let mut sink = Buffer::new();
    let make = || {
        vec![
            Stmt::Fact(Pred::new("says", vec![lit("line one\nline two")]).unwrap()),
            Stmt::Query(Pred::new("says", vec![var("What")]).unwrap()),
            Stmt::Fact(Pred::new("halt", vec![]).unwrap()),
        ]
    };
    for stmt in make() {
        sink.add(stmt).unwrap();
    }
    let text = sink.into_string();
    assert_eq!(text.lines().count(), 3);
    assert_eq!(document(&text), Ok(make()));
}
