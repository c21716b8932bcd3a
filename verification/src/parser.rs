//! The parser: from text to literals, statements and documents, or to the
//! first error. Each function returns exactly what the grammar, read
//! leniently, says of the text.

use crate::grammar::{
    atom_at, clause_at, document_of, fault, ident_end, layout_end, literal_body,
    literal_of, more_atoms, more_terms, statement_of, statements_from, term_at, terms_at,
    with_prefix, Construct, Expected, ParseError, Reading, SyntaxError, SyntaxErrorKind,
};
use crate::model::{first_atom_defect, Atom, Clause, Term};
use crate::predicates::{atoms_of, terms_of, Pred, Stmt, ValidationError, ID};
use crate::text::{chars_of, is_ident_char, is_whitespace, unescape_letter};
use vstd::prelude::*;

verus! {

/// The models of a sequence of statements, in order.
pub open spec fn clauses_of(stmts: Seq<Stmt>) -> Seq<Clause> {
    Seq::new(stmts.len(), |i: int| stmts[i]@)
}

/// `r` with `prefix` put before the statements it holds.
pub open spec fn with_clauses(prefix: Seq<Clause>, r: Result<Seq<Clause>, ParseError>) -> Result<
    Seq<Clause>,
    ParseError,
> {
    match r {
        Ok(rest) => Ok(prefix + rest),
        Err(e) => Err(e),
    }
}

proof fn lemma_with_prefix_twice<T>(a: Seq<T>, b: Seq<T>, r: Reading<Seq<T>>)
    ensures
        with_prefix(a, with_prefix(b, r)) == with_prefix(a + b, r),
{
    if let Ok((rest, j)) = r {
        assert(a + (b + rest) =~= (a + b) + rest);
    }
}

proof fn lemma_with_clauses_twice(
    a: Seq<Clause>,
    b: Seq<Clause>,
    r: Result<Seq<Clause>, ParseError>,
)
    ensures
        with_clauses(a, with_clauses(b, r)) == with_clauses(a + b, r),
{
    if let Ok(rest) = r {
        assert(a + (b + rest) =~= (a + b) + rest);
    }
}

/// Among `atoms` and then `last`, the first defect is that of `atoms` if
/// there is one, else that of `last`.
proof fn lemma_first_atom_defect_push(atoms: Seq<Atom>, last: Atom)
    ensures
        first_atom_defect(atoms.push(last)) == if first_atom_defect(atoms) is Some {
            first_atom_defect(atoms)
        } else {
            last.defect()
        },
    decreases atoms.len(),
{
    let all = atoms.push(last);
    if atoms.len() == 0 {
        assert(all.drop_first() =~= Seq::<Atom>::empty());
    } else {
        assert(all.drop_first() =~= atoms.drop_first().push(last));
        lemma_first_atom_defect_push(atoms.drop_first(), last);
    }
}

fn fault_at(text: &Vec<char>, i: usize, context: Construct, expected: Expected) -> (e:
    SyntaxError)
    requires
        i <= text.len(),
    ensures
        e == fault(text@, i as int, context, expected),
{
    let at_end = i >= text.len();
    let kind = match expected {
        Expected::EscapeLetter => if at_end {
            SyntaxErrorKind::UnterminatedLiteral
        } else {
            SyntaxErrorKind::InvalidEscape
        },
        Expected::ClosingQuote => if at_end {
            SyntaxErrorKind::UnterminatedLiteral
        } else {
            SyntaxErrorKind::UnexpectedChar
        },
        _ => if at_end {
            SyntaxErrorKind::UnexpectedEnd
        } else {
            SyntaxErrorKind::UnexpectedChar
        },
    };
    let found = if at_end {
        None
    } else {
        Some(text[i])
    };
    SyntaxError { kind, offset: i, context, expected, found }
}

fn skip_layout(text: &Vec<char>, i: usize) -> (j: usize)
    requires
        i <= text.len(),
    ensures
        j == layout_end(text@, i as int),
        i <= j <= text.len(),
{
    let mut j = i;
    while j < text.len() && is_whitespace(text[j])
        invariant
            i <= j <= text.len(),
            layout_end(text@, i as int) == layout_end(text@, j as int),
        decreases text.len() - j,
    {
        j += 1;
    }
    j
}

fn scan_identifier(text: &Vec<char>, i: usize) -> (j: usize)
    requires
        i <= text.len(),
    ensures
        j == ident_end(text@, i as int),
        i <= j <= text.len(),
{
    let mut j = i;
    while j < text.len() && is_ident_char(text[j]) && !(text[j] == ':' && j + 1 < text.len()
        && text[j + 1] == '-')
        invariant
            i <= j <= text.len(),
            ident_end(text@, i as int) == ident_end(text@, j as int),
        decreases text.len() - j,
    {
        j += 1;
    }
    j
}

fn copy_range(text: &Vec<char>, from: usize, to: usize) -> (s: String)
    requires
        from <= to <= text.len(),
    ensures
        s@ == text@.subrange(from as int, to as int),
{
    let mut s = String::new();
    let mut i = from;
    while i < to
        invariant
            from <= i <= to <= text.len(),
            s@ == text@.subrange(from as int, i as int),
        decreases to - i,
    {
        s.push(text[i]);
        assert(s@ =~= text@.subrange(from as int, i + 1));
        i += 1;
    }
    s
}

#[verifier::loop_isolation(false)]
fn parse_literal_body(text: &Vec<char>, i: usize) -> (r: Result<(String, usize), SyntaxError>)
    requires
        i <= text.len(),
    ensures
        match r {
            Ok((payload, j)) => literal_body(text@, i as int, false) == Ok::<
                (Seq<char>, int),
                SyntaxError,
            >((payload@, j as int)) && i < j <= text.len(),
            Err(e) => literal_body(text@, i as int, false) == Err::<(Seq<char>, int), SyntaxError>(
                e,
            ),
        },
{
    let ghost t = text@;
    let ghost whole = literal_body(t, i as int, false);
    let mut payload = String::new();
    let mut pos = i;
    proof {
        if let Ok((rest, j)) = whole {
            assert(Seq::<char>::empty() + rest =~= rest);
        }
    }
    loop
        invariant
            t == text@,
            i <= pos <= text.len(),
            whole == with_prefix(payload@, literal_body(t, pos as int, false)),
        decreases text.len() - pos,
    {
        if pos >= text.len() {
            return Err(fault_at(text, text.len(), Construct::Literal, Expected::ClosingQuote));
        }
        let c = text[pos];
        if c == '\'' {
            assert(payload@ + Seq::<char>::empty() =~= payload@);
            return Ok((payload, pos + 1));
        }
        if c == '\\' {
            if pos + 1 >= text.len() {
                return Err(fault_at(text, pos + 1, Construct::Literal, Expected::EscapeLetter));
            }
            match unescape_letter(text[pos + 1]) {
                Some(d) => {
                    proof {
                        lemma_with_prefix_twice(
                            payload@,
                            seq![d],
                            literal_body(t, pos + 2, false),
                        );
                        assert(payload@ + seq![d] =~= payload@.push(d));
                    }
                    payload.push(d);
                    pos += 2;
                },
                None => {
                    return Err(
                        fault_at(text, pos + 1, Construct::Literal, Expected::EscapeLetter),
                    );
                },
            }
        } else {
            proof {
                lemma_with_prefix_twice(payload@, seq![c], literal_body(t, pos + 1, false));
                assert(payload@ + seq![c] =~= payload@.push(c));
            }
            payload.push(c);
            pos += 1;
        }
    }
}

fn parse_term(text: &Vec<char>, i: usize, expected: Expected) -> (r: Result<
    (ID, usize),
    SyntaxError,
>)
    requires
        i <= text.len(),
    ensures
        match r {
            Ok((id, j)) => term_at(text@, i as int, false, expected) == Ok::<
                (Term, int),
                SyntaxError,
            >((id@, j as int)) && i < j <= text.len(),
            Err(e) => term_at(text@, i as int, false, expected) == Err::<
                (Term, int),
                SyntaxError,
            >(e),
        },
{
    if i < text.len() && text[i] == '\'' {
        match parse_literal_body(text, i + 1) {
            Ok((payload, j)) => Ok((ID::Literal(payload), j)),
            Err(e) => Err(e),
        }
    } else {
        let end = scan_identifier(text, i);
        if end > i {
            let name = copy_range(text, i, end);
            Ok((ID::Variable(name), end))
        } else {
            Err(fault_at(text, i, Construct::Identifier, expected))
        }
    }
}

#[verifier::loop_isolation(false)]
fn parse_terms(text: &Vec<char>, i: usize) -> (r: Result<(Vec<ID>, usize), SyntaxError>)
    requires
        i <= text.len(),
    ensures
        match r {
            Ok((ids, j)) => terms_at(text@, i as int, false) == Ok::<
                (Seq<Term>, int),
                SyntaxError,
            >((terms_of(ids@), j as int)) && i < j <= text.len(),
            Err(e) => terms_at(text@, i as int, false) == Err::<
                (Seq<Term>, int),
                SyntaxError,
            >(e),
        },
{
    let ghost t = text@;
    let ghost whole = terms_at(t, i as int, false);
    let mut ids: Vec<ID> = Vec::new();
    let start = skip_layout(text, i);
    if start < text.len() && text[start] == ')' {
        let j = skip_layout(text, start + 1);
        assert(terms_of(ids@) =~= Seq::<Term>::empty());
        return Ok((ids, j));
    }
    let mut pos;
    match parse_term(text, i, Expected::ArgumentOrCloseParen) {
        Ok((first, k)) => {
            ids.push(first);
            pos = k;
            assert(terms_of(ids@) =~= seq![first@]);
        },
        Err(e) => {
            return Err(e);
        },
    }
    loop
        invariant
            t == text@,
            i < pos <= text.len(),
            whole == with_prefix(terms_of(ids@), more_terms(t, pos as int, false)),
        decreases text.len() - pos,
    {
        let j = skip_layout(text, pos);
        if j < text.len() && text[j] == ')' {
            let k = skip_layout(text, j + 1);
            assert(terms_of(ids@) + Seq::<Term>::empty() =~= terms_of(ids@));
            return Ok((ids, k));
        }
        if !(j < text.len() && text[j] == ',') {
            return Err(fault_at(text, j, Construct::Predicate, Expected::CommaOrCloseParen));
        }
        let k = skip_layout(text, j + 1);
        match parse_term(text, k, Expected::Argument) {
            Ok((id, m)) => {
                proof {
                    lemma_with_prefix_twice(
                        terms_of(ids@),
                        seq![id@],
                        more_terms(t, m as int, false),
                    );
                    assert(terms_of(ids@) + seq![id@] =~= terms_of(ids@.push(id)));
                }
                ids.push(id);
                pos = m;
            },
            Err(e) => {
                return Err(e);
            },
        }
    }
}

/// What `parse_atom` and `parse_clause` hand back for a value that the
/// grammar reads as `model`: the value when the model is well formed, else
/// the model's defect.
spec fn checked<T: View>(
    value: Result<T, ValidationError>,
    model: T::V,
    defect: Option<ValidationError>,
) -> bool {
    match defect {
        Some(d) => value == Err::<T, ValidationError>(d),
        None => value matches Ok(v) && v@ == model,
    }
}

fn parse_atom(text: &Vec<char>, i: usize, context: Construct) -> (r: Result<
    (Result<Pred, ValidationError>, usize),
    SyntaxError,
>)
    requires
        i <= text.len(),
    ensures
        match atom_at(text@, i as int, false, context) {
            Ok((atom, j)) => r matches Ok((value, end)) && end == j && i < end <= text.len()
                && checked(value, atom, atom.defect()),
            Err(e) => r == Err::<(Result<Pred, ValidationError>, usize), SyntaxError>(e),
        },
{
    let name_end = scan_identifier(text, i);
    if name_end <= i {
        return Err(fault_at(text, i, context, Expected::Name));
    }
    let open = skip_layout(text, name_end);
    if !(open < text.len() && text[open] == '(') {
        return Err(fault_at(text, open, Construct::Predicate, Expected::OpenParen));
    }
    let first = skip_layout(text, open + 1);
    match parse_terms(text, first) {
        Ok((ids, end)) => {
            let name = copy_range(text, i, name_end);
            Ok((Pred::from_parts(name, ids), end))
        },
        Err(e) => Err(e),
    }
}

#[verifier::loop_isolation(false)]
fn parse_clause(text: &Vec<char>, i: usize) -> (r: Result<
    (Result<Stmt, ValidationError>, usize),
    SyntaxError,
>)
    requires
        i <= text.len(),
    ensures
        match clause_at(text@, i as int, false) {
            Ok((clause, j)) => r matches Ok((value, end)) && end == j && i < end <= text.len()
                && checked(value, clause, clause.defect()),
            Err(e) => r == Err::<(Result<Stmt, ValidationError>, usize), SyntaxError>(e),
        },
{
    let ghost t = text@;
    let (head, after_head) = match parse_atom(text, i, Construct::Statement) {
        Ok(read) => read,
        Err(e) => {
            return Err(e);
        },
    };
    let ghost head_atom = atom_at(t, i as int, false, Construct::Statement)->Ok_0.0;
    let mark = skip_layout(text, after_head);
    if mark < text.len() && text[mark] == '.' {
        let end = skip_layout(text, mark + 1);
        let value = match head {
            Ok(pred) => Stmt::fact(pred),
            Err(d) => Err(d),
        };
        return Ok((value, end));
    }
    if mark < text.len() && text[mark] == '?' {
        let end = skip_layout(text, mark + 1);
        let value = match head {
            Ok(pred) => Ok(Stmt::Query(pred)),
            Err(d) => Err(d),
        };
        return Ok((value, end));
    }
    if !(mark < text.len() && text[mark] == ':' && mark + 1 < text.len() && text[mark + 1] == '-') {
        return Err(fault_at(text, mark, Construct::Statement, Expected::Terminator));
    }
    let body_start = skip_layout(text, mark + 2);
    let (first, after_first) = match parse_atom(text, body_start, Construct::Rule) {
        Ok(read) => read,
        Err(e) => {
            return Err(e);
        },
    };
    let ghost first_atom = atom_at(t, body_start as int, false, Construct::Rule)->Ok_0.0;
    let ghost rest_whole = more_atoms(t, after_first as int, false);
    let ghost mut rest: Seq<Atom> = Seq::empty();
    let mut body: Vec<Pred> = Vec::new();
    let mut body_defect: Option<ValidationError> = None;
    match first {
        Ok(pred) => {
            body.push(pred);
        },
        Err(d) => {
            body_defect = Some(d);
        },
    }
    let mut pos = after_first;
    proof {
        assert(seq![first_atom] + rest =~= seq![first_atom]);
        assert(Seq::<Atom>::empty().push(first_atom) =~= seq![first_atom]);
        lemma_first_atom_defect_push(Seq::empty(), first_atom);
        if body_defect is None {
            assert(atoms_of(body@) =~= seq![first_atom]);
        }
        if let Ok((more, j)) = rest_whole {
            assert(rest + more =~= more);
        }
    }
    loop
        invariant
            t == text@,
            i < pos <= text.len(),
            rest_whole == with_prefix(rest, more_atoms(t, pos as int, false)),
            body_defect == first_atom_defect(seq![first_atom] + rest),
            body_defect is None ==> atoms_of(body@) == seq![first_atom] + rest,
        decreases text.len() - pos,
    {
        let j = skip_layout(text, pos);
        if j < text.len() && text[j] == '.' {
            let end = skip_layout(text, j + 1);
            assert(rest + Seq::<Atom>::empty() =~= rest);
            let value = match head {
                Ok(pred) => match body_defect {
                    None => Ok(Stmt::Rule(pred, body)),
                    Some(d) => Err(d),
                },
                Err(d) => Err(d),
            };
            return Ok((value, end));
        }
        if !(j < text.len() && text[j] == ',') {
            return Err(fault_at(text, j, Construct::Rule, Expected::CommaOrDot));
        }
        let k = skip_layout(text, j + 1);
        match parse_atom(text, k, Construct::Rule) {
            Ok((next, m)) => {
                let ghost atom = atom_at(t, k as int, false, Construct::Rule)->Ok_0.0;
                proof {
                    lemma_with_prefix_twice(rest, seq![atom], more_atoms(t, m as int, false));
                    lemma_first_atom_defect_push(seq![first_atom] + rest, atom);
                    assert((seq![first_atom] + rest).push(atom) =~= seq![first_atom] + (rest
                        + seq![atom]));
                }
                match next {
                    Ok(pred) => {
                        if body_defect.is_none() {
                            assert(atoms_of(body@.push(pred)) =~= atoms_of(body@).push(pred@));
                            body.push(pred);
                        }
                    },
                    Err(d) => {
                        if body_defect.is_none() {
                            body_defect = Some(d);
                        }
                    },
                }
                proof {
                    rest = rest + seq![atom];
                }
                pos = m;
            },
            Err(e) => {
                return Err(e);
            },
        }
    }
}

/// Parses a text that holds one quoted literal and nothing else, such as
/// `'it\'s'`, and resolves its escapes.
pub fn literal(text: &str) -> (r: Result<ID, ParseError>)
    ensures
        match literal_of(text@, false) {
            Ok(term) => r matches Ok(id) && id@ == term,
            Err(e) => r == Err::<ID, ParseError>(e),
        },
{
    let chars = chars_of(text);
    if !(0 < chars.len() && chars[0] == '\'') {
        return Err(
            ParseError::Syntax(fault_at(&chars, 0, Construct::Literal, Expected::OpeningQuote)),
        );
    }
    match parse_literal_body(&chars, 1) {
        Ok((payload, end)) => {
            if end < chars.len() {
                Err(
                    ParseError::Syntax(
                        fault_at(&chars, end, Construct::Literal, Expected::EndOfInput),
                    ),
                )
            } else {
                let id = ID::Literal(payload);
                match id.validate() {
                    Ok(()) => Ok(id),
                    Err(d) => Err(ParseError::Validation(d)),
                }
            }
        },
        Err(e) => Err(ParseError::Syntax(e)),
    }
}

/// Parses a text that holds one statement and nothing else but layout.
pub fn statement(text: &str) -> (r: Result<Stmt, ParseError>)
    ensures
        match statement_of(text@, false) {
            Ok(clause) => r matches Ok(stmt) && stmt@ == clause,
            Err(e) => r == Err::<Stmt, ParseError>(e),
        },
{
    let chars = chars_of(text);
    let start = skip_layout(&chars, 0);
    match parse_clause(&chars, start) {
        Ok((value, end)) => {
            if end < chars.len() {
                Err(
                    ParseError::Syntax(
                        fault_at(&chars, end, Construct::Statement, Expected::EndOfInput),
                    ),
                )
            } else {
                match value {
                    Ok(stmt) => Ok(stmt),
                    Err(d) => Err(ParseError::Validation(d)),
                }
            }
        },
        Err(e) => Err(ParseError::Syntax(e)),
    }
}

/// Parses a text that holds any number of statements, with layout between
/// them as one likes, and gives them in order. The first error ends the
/// parsing: nothing is returned of a text that is not a document up to
/// its end.
#[verifier::loop_isolation(false)]
pub fn document(text: &str) -> (r: Result<Vec<Stmt>, ParseError>)
    ensures
        match document_of(text@) {
            Ok(clauses) => r matches Ok(stmts) && clauses_of(stmts@) == clauses,
            Err(e) => r == Err::<Vec<Stmt>, ParseError>(e),
        },
{
    let chars = chars_of(text);
    let ghost t = chars@;
    let mut stmts: Vec<Stmt> = Vec::new();
    let mut pos = skip_layout(&chars, 0);
    proof {
        assert(clauses_of(stmts@) =~= Seq::<Clause>::empty());
        if let Ok(all) = document_of(t) {
            assert(Seq::<Clause>::empty() + all =~= all);
        }
    }
    while pos < chars.len()
        invariant
            t == chars@,
            t == text@,
            pos <= chars.len(),
            document_of(t) == with_clauses(clauses_of(stmts@), statements_from(t, pos as int)),
        decreases chars.len() - pos,
    {
        match parse_clause(&chars, pos) {
            Ok((value, end)) => {
                match value {
                    Ok(stmt) => {
                        proof {
                            lemma_with_clauses_twice(
                                clauses_of(stmts@),
                                seq![stmt@],
                                statements_from(t, end as int),
                            );
                            assert(clauses_of(stmts@) + seq![stmt@] =~= clauses_of(
                                stmts@.push(stmt),
                            ));
                        }
                        stmts.push(stmt);
                        pos = end;
                    },
                    Err(d) => {
                        return Err(ParseError::Validation(d));
                    },
                }
            },
            Err(e) => {
                return Err(ParseError::Syntax(e));
            },
        }
    }
    assert(clauses_of(stmts@) + Seq::<Clause>::empty() =~= clauses_of(stmts@));
    Ok(stmts)
}

} // verus!
