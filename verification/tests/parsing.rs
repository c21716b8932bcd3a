use datalog::grammar::{Construct, Expected, ParseError, SyntaxErrorKind};
use datalog::parser::{document, literal, statement};
use datalog::predicates::{Pred, Predicate, Stmt, ValidationError, ID};

fn lit(text: &str) -> ID {
    ID::Literal(text.to_string())
}

fn var(name: &str) -> ID {
    ID::Variable(name.to_string())
}

fn syntax(r: Result<Stmt, ParseError>) -> datalog::grammar::SyntaxError {
    match r {
        Err(ParseError::Syntax(e)) => e,
        other => panic!("expected a syntax error, got {:?}", other),
    }
}

#[test]
fn test_literal() {
    assert_eq!(literal("'asdf'"), Ok(ID::Literal("asdf".to_string())));
    assert_eq!(literal("'asd\\'f'"), Ok(ID::Literal("asd\'f".to_string())));
}

#[test]
fn literal_escapes_are_resolved() {
    assert_eq!(literal("'a\\\\b'"), Ok(lit("a\\b")));
    assert_eq!(literal("'\\b\\t\\n\\f\\r'"), Ok(lit("\u{8}\t\n\u{c}\r")));
    assert_eq!(literal("'a b,c(d).e?'"), Ok(lit("a b,c(d).e?")));
}

#[test]
fn literal_rendered_back() {
    let id = literal("'asd\\'f'").unwrap();
    assert_eq!(id.render(), "'asd\\'f'");
}

#[test]
fn literal_invalid_escape() {
    match literal("'a\\xb'") {
        Err(ParseError::Syntax(e)) => {
            assert_eq!(e.kind, SyntaxErrorKind::InvalidEscape);
            assert_eq!(e.offset, 3);
            assert_eq!(e.found, Some('x'));
            assert_eq!(e.context, Construct::Literal);
            assert_eq!(e.expected, Expected::EscapeLetter);
        }
        other => panic!("expected a syntax error, got {:?}", other),
    }
    match literal("'a\\\"b'") {
        Err(ParseError::Syntax(e)) => assert_eq!(e.kind, SyntaxErrorKind::InvalidEscape),
        other => panic!("expected a syntax error, got {:?}", other),
    }
}

#[test]
fn literal_unterminated() {
    match literal("'abc") {
        Err(ParseError::Syntax(e)) => {
            assert_eq!(e.kind, SyntaxErrorKind::UnterminatedLiteral);
            assert_eq!(e.offset, 4);
            assert_eq!(e.found, None);
            assert_eq!(e.expected, Expected::ClosingQuote);
        }
        other => panic!("expected a syntax error, got {:?}", other),
    }
    match literal("'abc\\") {
        Err(ParseError::Syntax(e)) => {
            assert_eq!(e.kind, SyntaxErrorKind::UnterminatedLiteral);
            assert_eq!(e.offset, 5);
            assert_eq!(e.expected, Expected::EscapeLetter);
        }
        other => panic!("expected a syntax error, got {:?}", other),
    }
}

#[test]
fn literal_needs_quotes_and_nothing_after() {
    match literal("asdf") {
        Err(ParseError::Syntax(e)) => {
            assert_eq!(e.kind, SyntaxErrorKind::UnexpectedChar);
            assert_eq!(e.offset, 0);
            assert_eq!(e.expected, Expected::OpeningQuote);
        }
        other => panic!("expected a syntax error, got {:?}", other),
    }
    match literal("") {
        Err(ParseError::Syntax(e)) => assert_eq!(e.kind, SyntaxErrorKind::UnexpectedEnd),
        other => panic!("expected a syntax error, got {:?}", other),
    }
    match literal("'a'b") {
        Err(ParseError::Syntax(e)) => {
            assert_eq!(e.offset, 3);
            assert_eq!(e.expected, Expected::EndOfInput);
        }
        other => panic!("expected a syntax error, got {:?}", other),
    }
}

#[test]
fn literal_empty_is_refused() {
    assert_eq!(literal("''"), Err(ParseError::Validation(ValidationError::EmptyLiteral)));
}

#[test]
fn parse_fact() {
    let text = "foo('bar','baz').";
    let stmt = statement(text).unwrap();
    let expected = Stmt::Fact(Pred::new("foo", vec![lit("bar"), lit("baz")]).unwrap());
    assert_eq!(stmt, expected);
    assert_eq!(stmt.render(), text);
}

#[test]
fn parse_rule() {
    let text = "foo('bar') :- foo('bar'), baz(X).";
    let stmt = statement(text).unwrap();
    let expected = Stmt::Rule(
        Pred::new("foo", vec![lit("bar")]).unwrap(),
        vec![
            Pred::new("foo", vec![lit("bar")]).unwrap(),
            Pred::new("baz", vec![var("X")]).unwrap(),
        ],
    );
    assert_eq!(stmt, expected);
    assert_eq!(stmt.render(), text);
}

#[test]
fn parse_query() {
    let text = "foo('bar',X)?";
    let stmt = statement(text).unwrap();
    let expected = Stmt::Query(Pred::new("foo", vec![lit("bar"), var("X")]).unwrap());
    assert_eq!(stmt, expected);
    assert_eq!(stmt.render(), text);
}

#[test]
fn parse_malformed() {
    let e = syntax(statement("foo(."));
    assert_eq!(e.offset, 4);
    assert_eq!(e.found, Some('.'));
    assert_eq!(e.kind, SyntaxErrorKind::UnexpectedChar);
    assert_eq!(e.context, Construct::Identifier);
    assert_eq!(e.expected, Expected::ArgumentOrCloseParen);
}

#[test]
fn parse_zero_arity() {
    let stmt = statement("halt()?").unwrap();
    match &stmt {
        Stmt::Query(p) => {
            assert!(p.is_empty());
            assert_eq!(p.len(), 0);
            assert_eq!(p.name(), "halt");
        }
        other => panic!("expected a query, got {:?}", other),
    }
    assert_eq!(stmt.render(), "halt()?");
}

#[test]
fn parse_skips_layout_between_tokens() {
    let stmt = statement(" \t\nfoo ( 'a b' ,\tX )\n:-\r\nbar ( X ) ,baz( )  . \n").unwrap();
    assert_eq!(stmt.render(), "foo('a b',X) :- bar(X), baz().");
    let tight = statement("foo(X):-bar(X),baz(Y).").unwrap();
    assert_eq!(tight.render(), "foo(X) :- bar(X), baz(Y).");
}

#[test]
fn parse_non_ground_fact() {
    assert_eq!(
        statement("foo('bar',X)."),
        Err(ParseError::Validation(ValidationError::NonGroundFact))
    );
    assert_eq!(statement("foo(X)."), Err(ParseError::Validation(ValidationError::NonGroundFact)));
}

#[test]
fn parse_empty_literal_in_statement() {
    assert_eq!(
        statement("foo('')?"),
        Err(ParseError::Validation(ValidationError::EmptyLiteral))
    );
    assert_eq!(
        statement("foo('a') :- bar(X), baz('')."),
        Err(ParseError::Validation(ValidationError::EmptyLiteral))
    );
}

#[test]
fn syntax_error_comes_before_defect() {
    let e = syntax(statement("foo('', ."));
    assert_eq!(e.offset, 8);
    assert_eq!(e.expected, Expected::Argument);
    let e = syntax(statement("foo(X). bar"));
    assert_eq!(e.offset, 8);
    assert_eq!(e.expected, Expected::EndOfInput);
}

#[test]
fn syntax_error_places() {
    let e = syntax(statement(""));
    assert_eq!((e.offset, e.kind, e.expected), (0, SyntaxErrorKind::UnexpectedEnd, Expected::Name));
    assert_eq!(e.context, Construct::Statement);

    let e = syntax(statement("(X)."));
    assert_eq!((e.offset, e.found, e.expected), (0, Some('('), Expected::Name));

    let e = syntax(statement("foo X"));
    assert_eq!((e.offset, e.found, e.expected), (4, Some('X'), Expected::OpenParen));
    assert_eq!(e.context, Construct::Predicate);

    let e = syntax(statement("foo(X Y)."));
    assert_eq!((e.offset, e.found, e.expected), (6, Some('Y'), Expected::CommaOrCloseParen));
    assert_eq!(e.context, Construct::Predicate);

    let e = syntax(statement("foo(X)"));
    assert_eq!((e.offset, e.found, e.expected), (6, None, Expected::Terminator));
    assert_eq!(e.kind, SyntaxErrorKind::UnexpectedEnd);

    let e = syntax(statement("foo(X) : bar(X)."));
    assert_eq!((e.offset, e.found, e.expected), (7, Some(':'), Expected::Terminator));

    let e = syntax(statement("foo(X) :- ."));
    assert_eq!((e.offset, e.found, e.expected), (10, Some('.'), Expected::Name));
    assert_eq!(e.context, Construct::Rule);

    let e = syntax(statement("foo(X) :- bar(X) baz(X)."));
    assert_eq!((e.offset, e.found, e.expected), (17, Some('b'), Expected::CommaOrDot));
    assert_eq!(e.context, Construct::Rule);

    let e = syntax(statement("foo(X) :- bar(X)"));
    assert_eq!((e.offset, e.found, e.expected), (16, None, Expected::CommaOrDot));

    let e = syntax(statement("foo('abc"));
    assert_eq!(e.kind, SyntaxErrorKind::UnterminatedLiteral);
    assert_eq!(e.offset, 8);

    let e = syntax(statement("foo('a\\qc')?"));
    assert_eq!(e.kind, SyntaxErrorKind::InvalidEscape);
    assert_eq!((e.offset, e.found), (7, Some('q')));
}

#[test]
fn offsets_count_characters() {
    let e = syntax(statement("f\u{f6}\u{f6}('\u{e9}' !"));
    assert_eq!((e.offset, e.found), (8, Some('!')));
}

#[test]
fn parse_document_in_order() {
    let text = "foo('bar','baz').\nfoo('bar') :- foo('bar'), baz(X).\nfoo('bar',X)?\n";
    let stmts = document(text).unwrap();
    assert_eq!(stmts.len(), 3);
    assert_eq!(stmts[0].render(), "foo('bar','baz').");
    assert_eq!(stmts[1].render(), "foo('bar') :- foo('bar'), baz(X).");
    assert_eq!(stmts[2].render(), "foo('bar',X)?");
}

#[test]
fn parse_document_edges() {
    assert_eq!(document("").unwrap().len(), 0);
    assert_eq!(document(" \n\t ").unwrap().len(), 0);
    assert_eq!(document("a()?b()?").unwrap().len(), 2);
    match document("foo('a').\nbar(") {
        Err(ParseError::Syntax(e)) => {
            assert_eq!(e.offset, 14);
            assert_eq!(e.kind, SyntaxErrorKind::UnexpectedEnd);
        }
        other => panic!("expected a syntax error, got {:?}", other),
    }
    assert_eq!(
        document("foo(X).\nbar("),
        Err(ParseError::Validation(ValidationError::NonGroundFact))
    );
}

#[test]
fn names_may_hold_colons_and_quotes() {
    for text in ["a:b(X)?", "it's('so').", "a\\b(X'Y,'z')?", "p(a:b) :- -q(X), r:(Y)."] {
        let stmt = statement(text).unwrap();
        assert_eq!(stmt.render(), text);
    }
    match statement("a:b('x')?").unwrap() {
        Stmt::Query(p) => {
            assert_eq!(p.name(), "a:b");
            assert_eq!(p.ids(), &vec![lit("x")]);
        }
        other => panic!("expected a query, got {:?}", other),
    }
    match statement("p('a'b)?").unwrap_err() {
        ParseError::Syntax(e) => {
            assert_eq!((e.offset, e.found, e.expected), (5, Some('b'), Expected::CommaOrCloseParen))
        }
        other => panic!("expected a syntax error, got {:?}", other),
    }
}

#[test]
fn names_end_before_the_arrow() {
    let stmt = statement("p(X):-q(X).").unwrap();
    assert_eq!(stmt.render(), "p(X) :- q(X).");
    let e = syntax(statement("a:-b(X)."));
    assert_eq!((e.offset, e.found, e.expected), (1, Some(':'), Expected::OpenParen));
    let e = syntax(statement("p(a:-b)?"));
    assert_eq!((e.offset, e.found, e.expected), (3, Some(':'), Expected::CommaOrCloseParen));
    let e = syntax(statement(":-p(X)."));
    assert_eq!((e.offset, e.found, e.expected), (0, Some(':'), Expected::Name));
}
