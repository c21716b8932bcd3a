//! The grammar, as spec functions from a text and a position to what
//! stands there.
//!
//! Each function reads the text in one of two ways. Read leniently, layout
//! may stand between any two tokens and a literal may hold any character
//! but the quote and the backslash outside an escape; this is what the
//! parser accepts. Read canonically, the layout is exactly that of the
//! canonical text (one space on each side of `:-`, one after the comma
//! between the predicates of a body, none elsewhere) and every character
//! that has an escape is written escaped; this is what the writer produces.

use crate::model::{Atom, Clause, Term};
use crate::predicates::ValidationError;
use crate::text::{escape_letter, ident_at, is_whitespace, unescape_letter};
use vstd::prelude::*;

verus! {

/// What the parser was reading when it gave up.
#[derive(Debug, Clone, Copy, PartialEq, Eq)]
pub enum Construct {
    /// A statement whose kind is not known yet: facts, rules and queries
    /// begin alike.
    Statement,
    /// The body of a rule.
    Rule,
    /// A predicate, after its name.
    Predicate,
    /// An argument of a predicate.
    Identifier,
    /// The inside of a quoted literal.
    Literal,
}

/// What would have been accepted where the parser gave up.
#[derive(Debug, Clone, Copy, PartialEq, Eq)]
pub enum Expected {
    /// The name of a predicate.
    Name,
    /// `(`.
    OpenParen,
    /// A literal or a variable.
    Argument,
    /// A literal, a variable or `)`.
    ArgumentOrCloseParen,
    /// `,` or `)`.
    CommaOrCloseParen,
    /// `.`, `?` or `:-`.
    Terminator,
    /// `,` or `.`.
    CommaOrDot,
    /// The quote that opens a literal.
    OpeningQuote,
    /// More text or the quote that closes the literal.
    ClosingQuote,
    /// One of the letters that may follow a backslash.
    EscapeLetter,
    /// Nothing more.
    EndOfInput,
}

/// The kinds of syntax error.
#[derive(Debug, Clone, Copy, PartialEq, Eq)]
pub enum SyntaxErrorKind {
    /// A character that cannot stand where it was found.
    UnexpectedChar,
    /// The text ended too early.
    UnexpectedEnd,
    /// Inside a literal, a backslash before a character that is no escape
    /// letter.
    InvalidEscape,
    /// The text ended inside a literal.
    UnterminatedLiteral,
}

/// A syntax error: where the text stopped being a statement, and why.
#[derive(Debug, Clone, Copy, PartialEq, Eq)]
pub struct SyntaxError {
    pub kind: SyntaxErrorKind,
    /// The number of characters before the offending one.
    pub offset: usize,
    pub context: Construct,
    pub expected: Expected,
    /// The offending character; `None` at the end of the text.
    pub found: Option<char>,
}

/// Why a text is no statement.
#[derive(Debug, Clone, Copy, PartialEq, Eq)]
pub enum ParseError {
    /// The text does not follow the grammar.
    Syntax(SyntaxError),
    /// The text follows the grammar, but what it denotes is not well
    /// formed.
    Validation(ValidationError),
}

/// The error for finding, at position `i` of `t`, something else than
/// `expected` while reading `context`.
pub open spec fn fault(
    t: Seq<char>,
    i: int,
    context: Construct,
    expected: Expected,
) -> SyntaxError {
    let at_end = !(0 <= i < t.len());
    SyntaxError {
        kind: if expected is EscapeLetter && !at_end {
            SyntaxErrorKind::InvalidEscape
        } else if (expected is EscapeLetter || expected is ClosingQuote) && at_end {
            SyntaxErrorKind::UnterminatedLiteral
        } else if at_end {
            SyntaxErrorKind::UnexpectedEnd
        } else {
            SyntaxErrorKind::UnexpectedChar
        },
        offset: i as usize,
        context,
        expected,
        found: if at_end {
            None
        } else {
            Some(t[i])
        },
    }
}

/// The result of reading something at a position: what was read and the
/// position after it, or the error.
pub type Reading<T> = Result<(T, int), SyntaxError>;

/// `c` stands at position `i` of `t`.
pub open spec fn char_at(t: Seq<char>, i: int, c: char) -> bool {
    0 <= i < t.len() && t[i] == c
}

/// The first position from `i` on that holds no layout.
pub open spec fn layout_end(t: Seq<char>, i: int) -> int
    decreases t.len() - i,
{
    if 0 <= i < t.len() && is_whitespace(t[i]) {
        layout_end(t, i + 1)
    } else {
        i
    }
}

/// The first position from `i` on at which a name or a variable cannot go
/// on: one that holds no identifier character, or at which `:-` starts.
pub open spec fn ident_end(t: Seq<char>, i: int) -> int
    decreases t.len() - i,
{
    if ident_at(t, i) {
        ident_end(t, i + 1)
    } else {
        i
    }
}

/// The punctuation of the grammar.
pub enum Punct {
    /// `(`
    Open,
    /// `)`
    Close,
    /// `,` between two arguments
    Comma,
    /// `,` between two predicates of a body; canonically a space follows
    BodyComma,
    /// `:-`; canonically between two spaces
    Arrow,
    /// `.`
    Dot,
    /// `?`
    Question,
}

impl Punct {
    /// The first character of the mark.
    pub open spec fn mark(self) -> char {
        match self {
            Punct::Open => '(',
            Punct::Close => ')',
            Punct::Comma => ',',
            Punct::BodyComma => ',',
            Punct::Arrow => ':',
            Punct::Dot => '.',
            Punct::Question => '?',
        }
    }
}

/// Reads the punctuation `p` at position `i` and gives the position where
/// the next token starts; `None` when `p` does not stand there.
///
/// Read leniently, layout before and after the mark is passed over. Read
/// canonically, the mark stands at `i` with exactly its canonical spaces.
pub open spec fn token_at(t: Seq<char>, i: int, canonical: bool, p: Punct) -> Option<int> {
    if canonical {
        match p {
            Punct::Arrow => if char_at(t, i, ' ') && char_at(t, i + 1, ':') && char_at(
                t,
                i + 2,
                '-',
            ) && char_at(t, i + 3, ' ') {
                Some(i + 4)
            } else {
                None
            },
            Punct::BodyComma => if char_at(t, i, ',') && char_at(t, i + 1, ' ') {
                Some(i + 2)
            } else {
                None
            },
            _ => if char_at(t, i, p.mark()) {
                Some(i + 1)
            } else {
                None
            },
        }
    } else {
        let j = layout_end(t, i);
        match p {
            Punct::Arrow => if char_at(t, j, ':') && char_at(t, j + 1, '-') {
                Some(layout_end(t, j + 2))
            } else {
                None
            },
            _ => if char_at(t, j, p.mark()) {
                Some(layout_end(t, j + 1))
            } else {
                None
            },
        }
    }
}

/// `r` with `prefix` put before what it read.
pub open spec fn with_prefix<T>(prefix: Seq<T>, r: Reading<Seq<T>>) -> Reading<Seq<T>> {
    match r {
        Ok((rest, j)) => Ok((prefix + rest, j)),
        Err(e) => Err(e),
    }
}

/// Reads the inside of a literal from position `i`, just after the opening
/// quote, up to and including the closing quote, and gives the payload
/// with its escapes resolved.
pub open spec fn literal_body(t: Seq<char>, i: int, canonical: bool) -> Reading<Seq<char>>
    decreases t.len() - i,
{
    if !(0 <= i < t.len()) {
        Err(fault(t, t.len() as int, Construct::Literal, Expected::ClosingQuote))
    } else if t[i] == '\'' {
        Ok((Seq::empty(), i + 1))
    } else if t[i] == '\\' {
        if i + 1 < t.len() && unescape_letter(t[i + 1]) is Some {
            with_prefix(seq![unescape_letter(t[i + 1])->0], literal_body(t, i + 2, canonical))
        } else {
            Err(fault(t, i + 1, Construct::Literal, Expected::EscapeLetter))
        }
    } else if canonical && escape_letter(t[i]) is Some {
        Err(fault(t, i, Construct::Literal, Expected::EscapeLetter))
    } else {
        with_prefix(seq![t[i]], literal_body(t, i + 1, canonical))
    }
}

/// Reads an argument at position `i`: a literal when a quote stands
/// there, else a variable made of the identifier characters that follow.
pub open spec fn term_at(t: Seq<char>, i: int, canonical: bool, expected: Expected) -> Reading<
    Term,
> {
    if char_at(t, i, '\'') {
        match literal_body(t, i + 1, canonical) {
            Ok((payload, j)) => Ok((Term::Literal(payload), j)),
            Err(e) => Err(e),
        }
    } else if ident_end(t, i) > i {
        Ok((Term::Variable(t.subrange(i, ident_end(t, i))), ident_end(t, i)))
    } else {
        Err(fault(t, i, Construct::Identifier, expected))
    }
}

/// Reads, from position `i` just after an argument, the arguments that
/// follow it, each after a comma, and the closing parenthesis.
pub open spec fn more_terms(t: Seq<char>, i: int, canonical: bool) -> Reading<Seq<Term>>
    decreases t.len() - i,
{
    match token_at(t, i, canonical, Punct::Close) {
        Some(j) => Ok((Seq::empty(), j)),
        None => match token_at(t, i, canonical, Punct::Comma) {
            Some(j) => match term_at(t, j, canonical, Expected::Argument) {
                Ok((term, k)) => {
                    proof {
                        lemma_token_advances(t, i, canonical, Punct::Comma);
                        lemma_term_advances(t, j, canonical, Expected::Argument);
                    }
                    with_prefix(seq![term], more_terms(t, k, canonical))
                },
                Err(e) => Err(e),
            },
            None => Err(
                fault(t, layout_end(t, i), Construct::Predicate, Expected::CommaOrCloseParen),
            ),
        },
    }
}

/// Reads the arguments of a predicate from position `i`, where the first
/// argument or the closing parenthesis starts, up to and including the
/// closing parenthesis.
pub open spec fn terms_at(t: Seq<char>, i: int, canonical: bool) -> Reading<Seq<Term>> {
    match token_at(t, i, canonical, Punct::Close) {
        Some(j) => Ok((Seq::empty(), j)),
        None => match term_at(t, i, canonical, Expected::ArgumentOrCloseParen) {
            Ok((term, k)) => with_prefix(seq![term], more_terms(t, k, canonical)),
            Err(e) => Err(e),
        },
    }
}

/// Reads a predicate at position `i`, where its name starts. A missing
/// name is reported as found while reading `context`.
pub open spec fn atom_at(t: Seq<char>, i: int, canonical: bool, context: Construct) -> Reading<
    Atom,
> {
    let name_end = ident_end(t, i);
    if name_end <= i {
        Err(fault(t, i, context, Expected::Name))
    } else {
        match token_at(t, name_end, canonical, Punct::Open) {
            Some(j) => match terms_at(t, j, canonical) {
                Ok((args, k)) => Ok((Atom { name: t.subrange(i, name_end), args }, k)),
                Err(e) => Err(e),
            },
            None => Err(
                fault(t, layout_end(t, name_end), Construct::Predicate, Expected::OpenParen),
            ),
        }
    }
}

/// Reads, from position `i` just after a predicate of a body, the
/// predicates that follow it, each after a comma, and the final dot.
pub open spec fn more_atoms(t: Seq<char>, i: int, canonical: bool) -> Reading<Seq<Atom>>
    decreases t.len() - i,
{
    match token_at(t, i, canonical, Punct::Dot) {
        Some(j) => Ok((Seq::empty(), j)),
        None => match token_at(t, i, canonical, Punct::BodyComma) {
            Some(j) => match atom_at(t, j, canonical, Construct::Rule) {
                Ok((atom, k)) => {
                    proof {
                        lemma_token_advances(t, i, canonical, Punct::BodyComma);
                        lemma_atom_advances(t, j, canonical, Construct::Rule);
                    }
                    with_prefix(seq![atom], more_atoms(t, k, canonical))
                },
                Err(e) => Err(e),
            },
            None => Err(fault(t, layout_end(t, i), Construct::Rule, Expected::CommaOrDot)),
        },
    }
}

/// Reads a statement at position `i`, where the name of its first
/// predicate starts: a predicate, then `.` for a fact, `?` for a query, or
/// `:-` and a body for a rule.
pub open spec fn clause_at(t: Seq<char>, i: int, canonical: bool) -> Reading<Clause> {
    match atom_at(t, i, canonical, Construct::Statement) {
        Err(e) => Err(e),
        Ok((head, j)) => match token_at(t, j, canonical, Punct::Dot) {
            Some(k) => Ok((Clause::Fact(head), k)),
            None => match token_at(t, j, canonical, Punct::Question) {
                Some(k) => Ok((Clause::Query(head), k)),
                None => match token_at(t, j, canonical, Punct::Arrow) {
                    Some(k) => match atom_at(t, k, canonical, Construct::Rule) {
                        Ok((first, m)) => match more_atoms(t, m, canonical) {
                            Ok((rest, n)) => Ok((Clause::Rule(head, seq![first] + rest), n)),
                            Err(e) => Err(e),
                        },
                        Err(e) => Err(e),
                    },
                    None => Err(
                        fault(t, layout_end(t, j), Construct::Statement, Expected::Terminator),
                    ),
                },
            },
        },
    }
}

/// What a text that holds one literal and nothing else denotes.
pub open spec fn literal_of(t: Seq<char>, canonical: bool) -> Result<Term, ParseError> {
    if !char_at(t, 0, '\'') {
        Err(ParseError::Syntax(fault(t, 0, Construct::Literal, Expected::OpeningQuote)))
    } else {
        match literal_body(t, 1, canonical) {
            Err(e) => Err(ParseError::Syntax(e)),
            Ok((payload, j)) => if j < t.len() {
                Err(ParseError::Syntax(fault(t, j, Construct::Literal, Expected::EndOfInput)))
            } else if Term::Literal(payload).defect() is Some {
                Err(ParseError::Validation(Term::Literal(payload).defect()->0))
            } else {
                Ok(Term::Literal(payload))
            },
        }
    }
}

/// What a text that holds one statement and nothing else denotes. A
/// syntax error anywhere in the text comes before a defect of what the
/// text denotes.
pub open spec fn statement_of(t: Seq<char>, canonical: bool) -> Result<Clause, ParseError> {
    let start = if canonical {
        0
    } else {
        layout_end(t, 0)
    };
    match clause_at(t, start, canonical) {
        Err(e) => Err(ParseError::Syntax(e)),
        Ok((clause, j)) => if j < t.len() {
            Err(ParseError::Syntax(fault(t, j, Construct::Statement, Expected::EndOfInput)))
        } else if clause.defect() is Some {
            Err(ParseError::Validation(clause.defect()->0))
        } else {
            Ok(clause)
        },
    }
}

/// What the statements from position `i` on denote, read leniently one
/// after the other up to the end of the text. The first error ends the
/// reading.
pub open spec fn statements_from(t: Seq<char>, i: int) -> Result<Seq<Clause>, ParseError>
    decreases t.len() - i,
{
    if !(0 <= i < t.len()) {
        Ok(Seq::empty())
    } else {
        match clause_at(t, i, false) {
            Err(e) => Err(ParseError::Syntax(e)),
            Ok((clause, j)) => if clause.defect() is Some {
                Err(ParseError::Validation(clause.defect()->0))
            } else {
                proof {
                    lemma_clause_advances(t, i, false);
                }
                match statements_from(t, j) {
                    Ok(rest) => Ok(seq![clause] + rest),
                    Err(e) => Err(e),
                }
            },
        }
    }
}

/// What a text that holds any number of statements denotes.
pub open spec fn document_of(t: Seq<char>) -> Result<Seq<Clause>, ParseError> {
    statements_from(t, layout_end(t, 0))
}

/// Layout ends at or after where it starts, within the text.
pub proof fn lemma_layout_end(t: Seq<char>, i: int)
    requires
        0 <= i <= t.len(),
    ensures
        i <= layout_end(t, i) <= t.len(),
        layout_end(t, i) < t.len() ==> !is_whitespace(t[layout_end(t, i)]),
        forall|k: int| i <= k < layout_end(t, i) ==> is_whitespace(#[trigger] t[k]),
    decreases t.len() - i,
{
    if i < t.len() && is_whitespace(t[i]) {
        lemma_layout_end(t, i + 1);
    }
}

/// A run of identifier characters ends at or after where it starts,
/// within the text.
pub proof fn lemma_ident_end(t: Seq<char>, i: int)
    requires
        0 <= i <= t.len(),
    ensures
        i <= ident_end(t, i) <= t.len(),
        !ident_at(t, ident_end(t, i)),
        forall|k: int| i <= k < ident_end(t, i) ==> #[trigger] ident_at(t, k),
    decreases t.len() - i,
{
    if ident_at(t, i) {
        lemma_ident_end(t, i + 1);
    }
}

/// A punctuation mark that was read takes at least one character.
pub proof fn lemma_token_advances(t: Seq<char>, i: int, canonical: bool, p: Punct)
    requires
        0 <= i <= t.len(),
    ensures
        token_at(t, i, canonical, p) matches Some(j) ==> i < j <= t.len(),
{
    lemma_layout_end(t, i);
    let j = layout_end(t, i);
    if j < t.len() {
        lemma_layout_end(t, j + 1);
        if j + 1 < t.len() {
            lemma_layout_end(t, j + 2);
        }
    }
}

/// The inside of a literal that was read takes at least the closing quote.
pub proof fn lemma_literal_advances(t: Seq<char>, i: int, canonical: bool)
    requires
        0 <= i <= t.len(),
    ensures
        literal_body(t, i, canonical) matches Ok((_, j)) ==> i < j <= t.len(),
    decreases t.len() - i,
{
    if i < t.len() && t[i] != '\'' {
        if t[i] == '\\' {
            if i + 1 < t.len() && unescape_letter(t[i + 1]) is Some {
                lemma_literal_advances(t, i + 2, canonical);
            }
        } else if !(canonical && escape_letter(t[i]) is Some) {
            lemma_literal_advances(t, i + 1, canonical);
        }
    }
}

/// An argument that was read takes at least one character.
pub proof fn lemma_term_advances(t: Seq<char>, i: int, canonical: bool, expected: Expected)
    requires
        0 <= i <= t.len(),
    ensures
        term_at(t, i, canonical, expected) matches Ok((_, j)) ==> i < j <= t.len(),
{
    lemma_ident_end(t, i);
    if char_at(t, i, '\'') {
        lemma_literal_advances(t, i + 1, canonical);
    }
}

/// The rest of an argument list that was read takes at least the closing
/// parenthesis.
pub proof fn lemma_more_terms_advances(t: Seq<char>, i: int, canonical: bool)
    requires
        0 <= i <= t.len(),
    ensures
        more_terms(t, i, canonical) matches Ok((_, j)) ==> i < j <= t.len(),
    decreases t.len() - i,
{
    lemma_token_advances(t, i, canonical, Punct::Close);
    lemma_token_advances(t, i, canonical, Punct::Comma);
    if token_at(t, i, canonical, Punct::Close) is None {
        if let Some(j) = token_at(t, i, canonical, Punct::Comma) {
            lemma_term_advances(t, j, canonical, Expected::Argument);
            if let Ok((_, k)) = term_at(t, j, canonical, Expected::Argument) {
                lemma_more_terms_advances(t, k, canonical);
            }
        }
    }
}

/// An argument list that was read takes at least the closing parenthesis.
pub proof fn lemma_terms_advances(t: Seq<char>, i: int, canonical: bool)
    requires
        0 <= i <= t.len(),
    ensures
        terms_at(t, i, canonical) matches Ok((_, j)) ==> i < j <= t.len(),
{
    lemma_token_advances(t, i, canonical, Punct::Close);
    lemma_term_advances(t, i, canonical, Expected::ArgumentOrCloseParen);
    if let Ok((_, k)) = term_at(t, i, canonical, Expected::ArgumentOrCloseParen) {
        lemma_more_terms_advances(t, k, canonical);
    }
}

/// A predicate that was read takes at least one character.
pub proof fn lemma_atom_advances(t: Seq<char>, i: int, canonical: bool, context: Construct)
    requires
        0 <= i <= t.len(),
    ensures
        atom_at(t, i, canonical, context) matches Ok((_, j)) ==> i < j <= t.len(),
{
    lemma_ident_end(t, i);
    let name_end = ident_end(t, i);
    lemma_token_advances(t, name_end, canonical, Punct::Open);
    if let Some(j) = token_at(t, name_end, canonical, Punct::Open) {
        lemma_terms_advances(t, j, canonical);
    }
}

/// The rest of a body that was read takes at least the final dot.
pub proof fn lemma_more_atoms_advances(t: Seq<char>, i: int, canonical: bool)
    requires
        0 <= i <= t.len(),
    ensures
        more_atoms(t, i, canonical) matches Ok((_, j)) ==> i < j <= t.len(),
    decreases t.len() - i,
{
    lemma_token_advances(t, i, canonical, Punct::Dot);
    lemma_token_advances(t, i, canonical, Punct::BodyComma);
    if token_at(t, i, canonical, Punct::Dot) is None {
        if let Some(j) = token_at(t, i, canonical, Punct::BodyComma) {
            lemma_atom_advances(t, j, canonical, Construct::Rule);
            if let Ok((_, k)) = atom_at(t, j, canonical, Construct::Rule) {
                lemma_more_atoms_advances(t, k, canonical);
            }
        }
    }
}

/// A statement that was read takes at least one character.
pub proof fn lemma_clause_advances(t: Seq<char>, i: int, canonical: bool)
    requires
        0 <= i <= t.len(),
    ensures
        clause_at(t, i, canonical) matches Ok((_, j)) ==> i < j <= t.len(),
{
    lemma_atom_advances(t, i, canonical, Construct::Statement);
    if let Ok((_, j)) = atom_at(t, i, canonical, Construct::Statement) {
        lemma_token_advances(t, j, canonical, Punct::Dot);
        lemma_token_advances(t, j, canonical, Punct::Question);
        lemma_token_advances(t, j, canonical, Punct::Arrow);
        if let Some(k) = token_at(t, j, canonical, Punct::Arrow) {
            lemma_atom_advances(t, k, canonical, Construct::Rule);
            if let Ok((_, m)) = atom_at(t, k, canonical, Construct::Rule) {
                lemma_more_atoms_advances(t, m, canonical);
            }
        }
    }
}

} // verus!
