//! The laws that tie the parser to the writer: what is written is read
//! back as it was, and what is read from a canonical text is written back
//! as that text.

use crate::grammar::{
    atom_at, char_at, clause_at, document_of, ident_end, layout_end, lemma_atom_advances,
    lemma_clause_advances, lemma_ident_end, lemma_layout_end, lemma_literal_advances,
    lemma_more_atoms_advances, lemma_more_terms_advances, lemma_term_advances,
    lemma_terms_advances,
    lemma_token_advances, literal_body, literal_of, more_atoms, more_terms, statement_of,
    statements_from, term_at, terms_at, token_at, Construct, Expected, ParseError, Punct,
    SyntaxError,
};
use crate::model::{
    comma_atoms, comma_terms, join_terms, lemma_first_atom_defect,
    lemma_first_defect, lines_of, Atom, Clause, Term,
};
use crate::text::{
    escape_letter, escaped, escaped_char, ident_at, is_ident_char, is_identifier,
    lemma_escape_letters_inverse, unescape_letter,
};
use vstd::prelude::*;

verus! {

/// `s` stands in `t` from position `i` on.
pub open spec fn placed(t: Seq<char>, i: int, s: Seq<char>) -> bool {
    0 <= i && i + s.len() <= t.len() && t.subrange(i, i + s.len()) == s
}

/// A text that stands in another shares its characters with it.
pub proof fn lemma_placed_at(t: Seq<char>, i: int, s: Seq<char>, k: int)
    requires
        placed(t, i, s),
        0 <= k < s.len(),
    ensures
        t[i + k] == s[k],
{
    assert(t.subrange(i, i + s.len())[k] == s[k]);
}

/// Where two texts joined stand, the first stands, and the second after
/// it.
pub proof fn lemma_placed_concat(t: Seq<char>, i: int, a: Seq<char>, b: Seq<char>)
    requires
        placed(t, i, a + b),
    ensures
        placed(t, i, a),
        placed(t, i + a.len(), b),
{
    let whole = a + b;
    assert forall|k: int| 0 <= k < a.len() implies t.subrange(i, i + a.len())[k] == a[k] by {
        lemma_placed_at(t, i, whole, k);
    }
    assert(t.subrange(i, i + a.len()) =~= a);
    assert forall|k: int| 0 <= k < b.len() implies t.subrange(
        i + a.len(),
        i + a.len() + b.len(),
    )[k] == b[k] by {
        lemma_placed_at(t, i, whole, a.len() + k);
    }
    assert(t.subrange(i + a.len(), i + a.len() + b.len()) =~= b);
}

proof fn lemma_ident_run(t: Seq<char>, i: int, n: int)
    requires
        0 <= i,
        0 <= n,
        i + n <= t.len(),
        forall|k: int| i <= k < i + n ==> #[trigger] ident_at(t, k),
        !ident_at(t, i + n),
    ensures
        ident_end(t, i) == i + n,
    decreases n,
{
    if n > 0 {
        lemma_ident_run(t, i + 1, n - 1);
    }
}

/// An identifier that stands in the text before a character that cannot
/// continue it is the run of identifier characters that starts there.
proof fn lemma_read_identifier(t: Seq<char>, i: int, name: Seq<char>)
    requires
        is_identifier(name),
        placed(t, i, name),
        i + name.len() == t.len() || !is_ident_char(t[i + name.len()]),
    ensures
        ident_end(t, i) == i + name.len(),
        ident_end(t, i) > i,
        t.subrange(i, ident_end(t, i)) == name,
        is_ident_char(t[i]),
{
    let n = name.len() as int;
    assert forall|k: int| i <= k < i + n implies #[trigger] ident_at(t, k) by {
        assert(ident_at(name, k - i));
        lemma_placed_at(t, i, name, k - i);
        if k + 1 < i + n {
            lemma_placed_at(t, i, name, k + 1 - i);
        }
    }
    lemma_ident_run(t, i, n);
    assert(ident_at(name, 0));
    lemma_placed_at(t, i, name, 0);
}

proof fn lemma_read_escaped(t: Seq<char>, i: int, s: Seq<char>)
    requires
        placed(t, i, escaped(s) + seq!['\'']),
    ensures
        literal_body(t, i, true) == Ok::<(Seq<char>, int), SyntaxError>(
            (s, i + escaped(s).len() + 1),
        ),
    decreases s.len(),
{
    let whole = escaped(s) + seq!['\''];
    if s.len() == 0 {
        lemma_placed_at(t, i, whole, 0);
        assert(s =~= Seq::<char>::empty());
    } else {
        let c = s[0];
        let rest = s.drop_first();
        let tail = escaped(rest) + seq!['\''];
        assert(whole =~= escaped_char(c) + tail);
        lemma_placed_concat(t, i, escaped_char(c), tail);
        lemma_read_escaped(t, i + escaped_char(c).len(), rest);
        lemma_escape_letters_inverse(c);
        lemma_placed_at(t, i, escaped_char(c), 0);
        if escape_letter(c) is Some {
            lemma_placed_at(t, i, escaped_char(c), 1);
        }
        assert(seq![c] + rest =~= s);
        assert(escaped(s).len() == escaped_char(c).len() + escaped(rest).len());
    }
}

proof fn lemma_read_term(t: Seq<char>, i: int, term: Term, expected: Expected)
    requires
        term.wf(),
        term.is_plain(),
        placed(t, i, term.text()),
        term is Variable ==> i + term.text().len() == t.len() || !is_ident_char(
            t[i + term.text().len()],
        ),
    ensures
        term_at(t, i, true, expected) == Ok::<(Term, int), SyntaxError>(
            (term, i + term.text().len()),
        ),
        term.text().len() > 0,
        !char_at(t, i, ')'),
{
    match term {
        Term::Literal(payload) => {
            let body = escaped(payload) + seq!['\''];
            assert(term.text() =~= seq!['\''] + body);
            lemma_placed_concat(t, i, seq!['\''], body);
            lemma_placed_at(t, i, seq!['\''], 0);
            lemma_read_escaped(t, i + 1, payload);
        },
        Term::Variable(name) => {
            lemma_read_identifier(t, i, name);
            lemma_placed_at(t, i, name, 0);
            assert(!char_at(t, i, '\''));
        },
        Term::FreeVariable(_) => {},
    }
}

/// Each of `args` is well formed and plain.
pub open spec fn all_readable(args: Seq<Term>) -> bool {
    forall|k: int| 0 <= k < args.len() ==> (#[trigger] args[k]).wf() && args[k].is_plain()
}

proof fn lemma_read_more_terms(t: Seq<char>, i: int, args: Seq<Term>)
    requires
        all_readable(args),
        placed(t, i, comma_terms(args) + seq![')']),
    ensures
        more_terms(t, i, true) == Ok::<(Seq<Term>, int), SyntaxError>(
            (args, i + comma_terms(args).len() + 1),
        ),
        char_at(t, i, ',') || char_at(t, i, ')'),
    decreases args.len(),
{
    let whole = comma_terms(args) + seq![')'];
    if args.len() == 0 {
        lemma_placed_at(t, i, whole, 0);
        assert(args =~= Seq::<Term>::empty());
    } else {
        let first = args[0];
        let rest = args.drop_first();
        let tail = comma_terms(rest) + seq![')'];
        assert(whole =~= seq![','] + (first.text() + tail));
        lemma_placed_concat(t, i, seq![','], first.text() + tail);
        lemma_placed_at(t, i, seq![','], 0);
        lemma_placed_concat(t, i + 1, first.text(), tail);
        assert(all_readable(rest)) by {
            assert forall|k: int| 0 <= k < rest.len() implies (#[trigger] rest[k]).wf()
                && rest[k].is_plain() by {
                assert(rest[k] == args[k + 1]);
            }
        }
        let next = i + 1 + first.text().len();
        lemma_read_more_terms(t, next, rest);
        lemma_read_term(t, i + 1, first, Expected::Argument);
        assert(seq![first] + rest =~= args);
        assert(comma_terms(args).len() == 1 + first.text().len() + comma_terms(rest).len());
    }
}

proof fn lemma_read_terms(t: Seq<char>, i: int, args: Seq<Term>)
    requires
        all_readable(args),
        placed(t, i, join_terms(args) + seq![')']),
    ensures
        terms_at(t, i, true) == Ok::<(Seq<Term>, int), SyntaxError>(
            (args, i + join_terms(args).len() + 1),
        ),
{
    let whole = join_terms(args) + seq![')'];
    if args.len() == 0 {
        lemma_placed_at(t, i, whole, 0);
        assert(args =~= Seq::<Term>::empty());
    } else {
        let first = args[0];
        let rest = args.drop_first();
        let tail = comma_terms(rest) + seq![')'];
        assert(whole =~= first.text() + tail);
        lemma_placed_concat(t, i, first.text(), tail);
        assert(all_readable(rest)) by {
            assert forall|k: int| 0 <= k < rest.len() implies (#[trigger] rest[k]).wf()
                && rest[k].is_plain() by {
                assert(rest[k] == args[k + 1]);
            }
        }
        lemma_read_more_terms(t, i + first.text().len(), rest);
        lemma_read_term(t, i, first, Expected::ArgumentOrCloseParen);
        assert(seq![first] + rest =~= args);
        assert(join_terms(args).len() == first.text().len() + comma_terms(rest).len());
    }
}

proof fn lemma_read_atom(t: Seq<char>, i: int, atom: Atom, context: Construct)
    requires
        atom.wf(),
        atom.is_plain(),
        placed(t, i, atom.text()),
    ensures
        atom_at(t, i, true, context) == Ok::<(Atom, int), SyntaxError>(
            (atom, i + atom.text().len()),
        ),
        atom.text().len() > 0,
        0 <= i < t.len() && is_ident_char(t[i]),
{
    let tail = join_terms(atom.args) + seq![')'];
    assert(atom.text() =~= atom.name + (seq!['('] + tail));
    lemma_placed_concat(t, i, atom.name, seq!['('] + tail);
    let open = i + atom.name.len();
    lemma_placed_concat(t, open, seq!['('], tail);
    lemma_placed_at(t, open, seq!['('], 0);
    lemma_read_identifier(t, i, atom.name);
    lemma_placed_at(t, i, atom.name, 0);
    lemma_first_defect(atom.args);
    lemma_read_terms(t, open + 1, atom.args);
}

/// Each of `atoms` is well formed and plain.
pub open spec fn all_readable_atoms(atoms: Seq<Atom>) -> bool {
    forall|k: int| 0 <= k < atoms.len() ==> (#[trigger] atoms[k]).wf() && atoms[k].is_plain()
}

proof fn lemma_read_more_atoms(t: Seq<char>, i: int, atoms: Seq<Atom>)
    requires
        all_readable_atoms(atoms),
        placed(t, i, comma_atoms(atoms) + seq!['.']),
    ensures
        more_atoms(t, i, true) == Ok::<(Seq<Atom>, int), SyntaxError>(
            (atoms, i + comma_atoms(atoms).len() + 1),
        ),
    decreases atoms.len(),
{
    let whole = comma_atoms(atoms) + seq!['.'];
    if atoms.len() == 0 {
        lemma_placed_at(t, i, whole, 0);
        assert(atoms =~= Seq::<Atom>::empty());
    } else {
        let first = atoms[0];
        let rest = atoms.drop_first();
        let tail = comma_atoms(rest) + seq!['.'];
        assert(whole =~= seq![',', ' '] + (first.text() + tail));
        lemma_placed_concat(t, i, seq![',', ' '], first.text() + tail);
        lemma_placed_at(t, i, seq![',', ' '], 0);
        lemma_placed_at(t, i, seq![',', ' '], 1);
        lemma_placed_concat(t, i + 2, first.text(), tail);
        assert(all_readable_atoms(rest)) by {
            assert forall|k: int| 0 <= k < rest.len() implies (#[trigger] rest[k]).wf()
                && rest[k].is_plain() by {
                assert(rest[k] == atoms[k + 1]);
            }
        }
        lemma_read_atom(t, i + 2, first, Construct::Rule);
        lemma_read_more_atoms(t, i + 2 + first.text().len(), rest);
        assert(seq![first] + rest =~= atoms);
        assert(comma_atoms(atoms).len() == 2 + first.text().len() + comma_atoms(rest).len());
    }
}

proof fn lemma_read_clause(t: Seq<char>, i: int, clause: Clause)
    requires
        clause.wf(),
        clause.is_plain(),
        placed(t, i, clause.text()),
    ensures
        clause_at(t, i, true) == Ok::<(Clause, int), SyntaxError>(
            (clause, i + clause.text().len()),
        ),
        clause.text().len() > 0,
        0 <= i < t.len() && is_ident_char(t[i]),
{
    match clause {
        Clause::Fact(atom) => {
            lemma_placed_concat(t, i, atom.text(), seq!['.']);
            lemma_placed_at(t, i + atom.text().len(), seq!['.'], 0);
            lemma_read_atom(t, i, atom, Construct::Statement);
        },
        Clause::Query(atom) => {
            lemma_placed_concat(t, i, atom.text(), seq!['?']);
            lemma_placed_at(t, i + atom.text().len(), seq!['?'], 0);
            lemma_read_atom(t, i, atom, Construct::Statement);
        },
        Clause::Rule(head, body) => {
            let arrow = seq![' ', ':', '-', ' '];
            let first = body[0];
            let rest = body.drop_first();
            let tail = comma_atoms(rest) + seq!['.'];
            assert(clause.text() =~= head.text() + (arrow + (first.text() + tail)));
            lemma_placed_concat(t, i, head.text(), arrow + (first.text() + tail));
            let j = i + head.text().len();
            lemma_placed_concat(t, j, arrow, first.text() + tail);
            lemma_placed_at(t, j, arrow, 0);
            lemma_placed_at(t, j, arrow, 1);
            lemma_placed_at(t, j, arrow, 2);
            lemma_placed_at(t, j, arrow, 3);
            lemma_placed_concat(t, j + 4, first.text(), tail);
            lemma_first_atom_defect(body);
            assert(all_readable_atoms(rest)) by {
                assert forall|k: int| 0 <= k < rest.len() implies (#[trigger] rest[k]).wf()
                    && rest[k].is_plain() by {
                    assert(rest[k] == body[k + 1]);
                }
            }
            lemma_read_atom(t, i, head, Construct::Statement);
            lemma_read_atom(t, j + 4, first, Construct::Rule);
            lemma_read_more_atoms(t, j + 4 + first.text().len(), rest);
            assert(seq![first] + rest =~= body);
        },
    }
}

proof fn lemma_layout_idempotent(t: Seq<char>, i: int)
    requires
        0 <= i <= t.len(),
    ensures
        layout_end(t, layout_end(t, i)) == layout_end(t, i),
{
    lemma_layout_end(t, i);
}

/// Read leniently, a mark is found from where layout starts as from
/// where it ends.
proof fn lemma_token_after_layout(t: Seq<char>, i: int, p: Punct)
    requires
        0 <= i <= t.len(),
    ensures
        token_at(t, layout_end(t, i), false, p) == token_at(t, i, false, p),
{
    lemma_layout_idempotent(t, i);
}

/// A mark that stands in canonical form is also found by the lenient
/// reading, which goes on to the end of the layout after it.
proof fn lemma_lenient_token(t: Seq<char>, i: int, p: Punct)
    requires
        0 <= i <= t.len(),
        token_at(t, i, true, p) is Some,
    ensures
        token_at(t, i, false, p) == Some(layout_end(t, token_at(t, i, true, p)->0)),
{
    match p {
        Punct::Arrow => {
            assert(layout_end(t, i + 1) == i + 1);
            assert(layout_end(t, i) == i + 1);
            assert(layout_end(t, i + 3) == layout_end(t, i + 4));
        },
        Punct::BodyComma => {
            assert(layout_end(t, i) == i);
            assert(layout_end(t, i + 1) == layout_end(t, i + 2));
        },
        _ => {
            assert(layout_end(t, i) == i);
        },
    }
}

proof fn lemma_lenient_literal(t: Seq<char>, i: int)
    requires
        0 <= i <= t.len(),
        literal_body(t, i, true) is Ok,
    ensures
        literal_body(t, i, false) == literal_body(t, i, true),
    decreases t.len() - i,
{
    if i < t.len() && t[i] != '\'' {
        if t[i] == '\\' {
            lemma_lenient_literal(t, i + 2);
        } else {
            lemma_lenient_literal(t, i + 1);
        }
    }
}

proof fn lemma_lenient_term(t: Seq<char>, i: int, expected: Expected)
    requires
        0 <= i <= t.len(),
        term_at(t, i, true, expected) is Ok,
    ensures
        term_at(t, i, false, expected) == term_at(t, i, true, expected),
        layout_end(t, i) == i,
        !char_at(t, i, ')'),
{
    if char_at(t, i, '\'') {
        lemma_lenient_literal(t, i + 1);
    }
}

proof fn lemma_lenient_more_terms(t: Seq<char>, i: int)
    requires
        0 <= i <= t.len(),
        more_terms(t, i, true) is Ok,
    ensures
        more_terms(t, i, false) == Ok::<(Seq<Term>, int), SyntaxError>(
            (more_terms(t, i, true)->Ok_0.0, layout_end(t, more_terms(t, i, true)->Ok_0.1)),
        ),
        layout_end(t, i) == i,
    decreases t.len() - i,
{
    if token_at(t, i, true, Punct::Close) is Some {
        lemma_lenient_token(t, i, Punct::Close);
    } else {
        let j = token_at(t, i, true, Punct::Comma)->0;
        lemma_lenient_token(t, i, Punct::Comma);
        lemma_token_advances(t, i, true, Punct::Comma);
        lemma_lenient_term(t, j, Expected::Argument);
        lemma_term_advances(t, j, true, Expected::Argument);
        let k = term_at(t, j, true, Expected::Argument)->Ok_0.1;
        lemma_lenient_more_terms(t, k);
    }
}

proof fn lemma_lenient_terms(t: Seq<char>, i: int)
    requires
        0 <= i <= t.len(),
        terms_at(t, i, true) is Ok,
    ensures
        terms_at(t, i, false) == Ok::<(Seq<Term>, int), SyntaxError>(
            (terms_at(t, i, true)->Ok_0.0, layout_end(t, terms_at(t, i, true)->Ok_0.1)),
        ),
        layout_end(t, i) == i,
{
    if token_at(t, i, true, Punct::Close) is Some {
        lemma_lenient_token(t, i, Punct::Close);
    } else {
        lemma_lenient_term(t, i, Expected::ArgumentOrCloseParen);
        lemma_term_advances(t, i, true, Expected::ArgumentOrCloseParen);
        let k = term_at(t, i, true, Expected::ArgumentOrCloseParen)->Ok_0.1;
        lemma_lenient_more_terms(t, k);
    }
}

proof fn lemma_lenient_atom(t: Seq<char>, i: int, context: Construct)
    requires
        0 <= i <= t.len(),
        atom_at(t, i, true, context) is Ok,
    ensures
        atom_at(t, i, false, context) == Ok::<(Atom, int), SyntaxError>(
            (
                atom_at(t, i, true, context)->Ok_0.0,
                layout_end(t, atom_at(t, i, true, context)->Ok_0.1),
            ),
        ),
        layout_end(t, i) == i,
{
    lemma_ident_end(t, i);
    let name_end = ident_end(t, i);
    lemma_lenient_token(t, name_end, Punct::Open);
    lemma_token_advances(t, name_end, true, Punct::Open);
    let j = token_at(t, name_end, true, Punct::Open)->0;
    lemma_lenient_terms(t, j);
}

proof fn lemma_lenient_more_atoms(t: Seq<char>, i: int)
    requires
        0 <= i <= t.len(),
        more_atoms(t, i, true) is Ok,
    ensures
        more_atoms(t, i, false) == Ok::<(Seq<Atom>, int), SyntaxError>(
            (more_atoms(t, i, true)->Ok_0.0, layout_end(t, more_atoms(t, i, true)->Ok_0.1)),
        ),
        layout_end(t, i) == i,
    decreases t.len() - i,
{
    if token_at(t, i, true, Punct::Dot) is Some {
        lemma_lenient_token(t, i, Punct::Dot);
    } else {
        let j = token_at(t, i, true, Punct::BodyComma)->0;
        lemma_lenient_token(t, i, Punct::BodyComma);
        lemma_token_advances(t, i, true, Punct::BodyComma);
        lemma_lenient_atom(t, j, Construct::Rule);
        lemma_atom_advances(t, j, true, Construct::Rule);
        let k = atom_at(t, j, true, Construct::Rule)->Ok_0.1;
        lemma_lenient_more_atoms(t, k);
        lemma_layout_end(t, k);
        assert(more_atoms(t, layout_end(t, k), false) == more_atoms(t, k, false));
    }
}

proof fn lemma_lenient_clause(t: Seq<char>, i: int)
    requires
        0 <= i <= t.len(),
        clause_at(t, i, true) is Ok,
    ensures
        clause_at(t, i, false) == Ok::<(Clause, int), SyntaxError>(
            (clause_at(t, i, true)->Ok_0.0, layout_end(t, clause_at(t, i, true)->Ok_0.1)),
        ),
        layout_end(t, i) == i,
{
    lemma_lenient_atom(t, i, Construct::Statement);
    lemma_atom_advances(t, i, true, Construct::Statement);
    let j = atom_at(t, i, true, Construct::Statement)->Ok_0.1;
    lemma_token_after_layout(t, j, Punct::Dot);
    lemma_token_after_layout(t, j, Punct::Question);
    lemma_token_after_layout(t, j, Punct::Arrow);
    lemma_layout_idempotent(t, j);
    if token_at(t, j, true, Punct::Dot) is Some {
        lemma_lenient_token(t, j, Punct::Dot);
    } else if token_at(t, j, true, Punct::Question) is Some {
        lemma_lenient_token(t, j, Punct::Question);
        assert(token_at(t, j, false, Punct::Dot) is None);
    } else {
        lemma_lenient_token(t, j, Punct::Arrow);
        lemma_token_advances(t, j, true, Punct::Arrow);
        assert(layout_end(t, j + 1) == j + 1);
        assert(layout_end(t, j) == j + 1);
        assert(token_at(t, j, false, Punct::Dot) is None);
        assert(token_at(t, j, false, Punct::Question) is None);
        let k = token_at(t, j, true, Punct::Arrow)->0;
        lemma_lenient_atom(t, k, Construct::Rule);
        lemma_atom_advances(t, k, true, Construct::Rule);
        let m = atom_at(t, k, true, Construct::Rule)->Ok_0.1;
        lemma_lenient_more_atoms(t, m);
    }
}

proof fn lemma_subrange_concat(t: Seq<char>, i: int, k: int, j: int)
    requires
        0 <= i <= k <= j <= t.len(),
    ensures
        t.subrange(i, k) + t.subrange(k, j) == t.subrange(i, j),
{
    assert(t.subrange(i, k) + t.subrange(k, j) =~= t.subrange(i, j));
}

proof fn lemma_written_literal(t: Seq<char>, i: int)
    requires
        0 <= i <= t.len(),
        literal_body(t, i, true) is Ok,
    ensures
        t.subrange(i, literal_body(t, i, true)->Ok_0.1) == escaped(
            literal_body(t, i, true)->Ok_0.0,
        ) + seq!['\''],
    decreases t.len() - i,
{
    lemma_literal_advances(t, i, true);
    let payload = literal_body(t, i, true)->Ok_0.0;
    let j = literal_body(t, i, true)->Ok_0.1;
    if t[i] == '\'' {
        assert(t.subrange(i, j) =~= seq!['\'']);
        assert(escaped(payload) + seq!['\''] =~= seq!['\'']);
    } else if t[i] == '\\' {
        let d = unescape_letter(t[i + 1])->0;
        lemma_written_literal(t, i + 2);
        lemma_literal_advances(t, i + 2, true);
        let rest = literal_body(t, i + 2, true)->Ok_0.0;
        lemma_escape_letters_inverse(t[i + 1]);
        assert(payload =~= seq![d] + rest);
        assert(payload.drop_first() =~= rest);
        assert(escaped_char(d) =~= t.subrange(i, i + 2));
        lemma_subrange_concat(t, i, i + 2, j);
        assert(escaped(payload) + seq!['\''] =~= escaped_char(d) + (escaped(rest) + seq!['\'']));
    } else {
        let c = t[i];
        lemma_written_literal(t, i + 1);
        lemma_literal_advances(t, i + 1, true);
        let rest = literal_body(t, i + 1, true)->Ok_0.0;
        assert(payload =~= seq![c] + rest);
        assert(payload.drop_first() =~= rest);
        assert(escaped_char(c) =~= t.subrange(i, i + 1));
        lemma_subrange_concat(t, i, i + 1, j);
        assert(escaped(payload) + seq!['\''] =~= escaped_char(c) + (escaped(rest) + seq!['\'']));
    }
}

proof fn lemma_written_term(t: Seq<char>, i: int, expected: Expected)
    requires
        0 <= i <= t.len(),
        term_at(t, i, true, expected) is Ok,
    ensures
        t.subrange(i, term_at(t, i, true, expected)->Ok_0.1) == term_at(
            t,
            i,
            true,
            expected,
        )->Ok_0.0.text(),
{
    lemma_term_advances(t, i, true, expected);
    if char_at(t, i, '\'') {
        lemma_written_literal(t, i + 1);
        let j = literal_body(t, i + 1, true)->Ok_0.1;
        let payload = literal_body(t, i + 1, true)->Ok_0.0;
        lemma_subrange_concat(t, i, i + 1, j);
        assert(t.subrange(i, i + 1) =~= seq!['\'']);
        assert(Term::Literal(payload).text() =~= seq!['\''] + (escaped(payload) + seq!['\'']));
    }
}

proof fn lemma_written_more_terms(t: Seq<char>, i: int)
    requires
        0 <= i <= t.len(),
        more_terms(t, i, true) is Ok,
    ensures
        t.subrange(i, more_terms(t, i, true)->Ok_0.1) == comma_terms(
            more_terms(t, i, true)->Ok_0.0,
        ) + seq![')'],
    decreases t.len() - i,
{
    lemma_more_terms_advances(t, i, true);
    let args = more_terms(t, i, true)->Ok_0.0;
    let end = more_terms(t, i, true)->Ok_0.1;
    if token_at(t, i, true, Punct::Close) is Some {
        assert(t.subrange(i, end) =~= seq![')']);
        assert(comma_terms(args) + seq![')'] =~= seq![')']);
    } else {
        let j = i + 1;
        lemma_term_advances(t, j, true, Expected::Argument);
        lemma_written_term(t, j, Expected::Argument);
        let term = term_at(t, j, true, Expected::Argument)->Ok_0.0;
        let k = term_at(t, j, true, Expected::Argument)->Ok_0.1;
        lemma_written_more_terms(t, k);
        lemma_more_terms_advances(t, k, true);
        let rest = more_terms(t, k, true)->Ok_0.0;
        assert(args =~= seq![term] + rest);
        assert(args.drop_first() =~= rest);
        assert(t.subrange(i, j) =~= seq![',']);
        lemma_subrange_concat(t, i, j, end);
        lemma_subrange_concat(t, j, k, end);
        assert(comma_terms(args) + seq![')'] =~= seq![','] + (term.text() + (comma_terms(rest)
            + seq![')'])));
    }
}

proof fn lemma_written_terms(t: Seq<char>, i: int)
    requires
        0 <= i <= t.len(),
        terms_at(t, i, true) is Ok,
    ensures
        t.subrange(i, terms_at(t, i, true)->Ok_0.1) == join_terms(terms_at(t, i, true)->Ok_0.0)
            + seq![')'],
{
    let args = terms_at(t, i, true)->Ok_0.0;
    let end = terms_at(t, i, true)->Ok_0.1;
    if token_at(t, i, true, Punct::Close) is Some {
        assert(t.subrange(i, end) =~= seq![')']);
        assert(join_terms(args) + seq![')'] =~= seq![')']);
    } else {
        lemma_term_advances(t, i, true, Expected::ArgumentOrCloseParen);
        lemma_written_term(t, i, Expected::ArgumentOrCloseParen);
        let term = term_at(t, i, true, Expected::ArgumentOrCloseParen)->Ok_0.0;
        let k = term_at(t, i, true, Expected::ArgumentOrCloseParen)->Ok_0.1;
        lemma_written_more_terms(t, k);
        lemma_more_terms_advances(t, k, true);
        let rest = more_terms(t, k, true)->Ok_0.0;
        assert(args =~= seq![term] + rest);
        assert(args.drop_first() =~= rest);
        lemma_subrange_concat(t, i, k, end);
        assert(join_terms(args) + seq![')'] =~= term.text() + (comma_terms(rest) + seq![')']));
    }
}

proof fn lemma_written_atom(t: Seq<char>, i: int, context: Construct)
    requires
        0 <= i <= t.len(),
        atom_at(t, i, true, context) is Ok,
    ensures
        t.subrange(i, atom_at(t, i, true, context)->Ok_0.1) == atom_at(
            t,
            i,
            true,
            context,
        )->Ok_0.0.text(),
{
    lemma_ident_end(t, i);
    lemma_atom_advances(t, i, true, context);
    let atom = atom_at(t, i, true, context)->Ok_0.0;
    let end = atom_at(t, i, true, context)->Ok_0.1;
    let name_end = ident_end(t, i);
    lemma_written_terms(t, name_end + 1);
    lemma_terms_advances(t, name_end + 1, true);
    assert(t.subrange(name_end, name_end + 1) =~= seq!['(']);
    lemma_subrange_concat(t, i, name_end, end);
    lemma_subrange_concat(t, name_end, name_end + 1, end);
    assert(atom.text() =~= atom.name + (seq!['('] + (join_terms(atom.args) + seq![')'])));
}

proof fn lemma_written_more_atoms(t: Seq<char>, i: int)
    requires
        0 <= i <= t.len(),
        more_atoms(t, i, true) is Ok,
    ensures
        t.subrange(i, more_atoms(t, i, true)->Ok_0.1) == comma_atoms(
            more_atoms(t, i, true)->Ok_0.0,
        ) + seq!['.'],
    decreases t.len() - i,
{
    lemma_more_atoms_advances(t, i, true);
    let atoms = more_atoms(t, i, true)->Ok_0.0;
    let end = more_atoms(t, i, true)->Ok_0.1;
    if token_at(t, i, true, Punct::Dot) is Some {
        assert(t.subrange(i, end) =~= seq!['.']);
        assert(comma_atoms(atoms) + seq!['.'] =~= seq!['.']);
    } else {
        let j = i + 2;
        lemma_atom_advances(t, j, true, Construct::Rule);
        lemma_written_atom(t, j, Construct::Rule);
        let atom = atom_at(t, j, true, Construct::Rule)->Ok_0.0;
        let k = atom_at(t, j, true, Construct::Rule)->Ok_0.1;
        lemma_written_more_atoms(t, k);
        lemma_more_atoms_advances(t, k, true);
        let rest = more_atoms(t, k, true)->Ok_0.0;
        assert(atoms =~= seq![atom] + rest);
        assert(atoms.drop_first() =~= rest);
        assert(t.subrange(i, j) =~= seq![',', ' ']);
        lemma_subrange_concat(t, i, j, end);
        lemma_subrange_concat(t, j, k, end);
        assert(comma_atoms(atoms) + seq!['.'] =~= seq![',', ' '] + (atom.text() + (comma_atoms(
            rest,
        ) + seq!['.'])));
    }
}

proof fn lemma_written_clause(t: Seq<char>, i: int)
    requires
        0 <= i <= t.len(),
        clause_at(t, i, true) is Ok,
    ensures
        t.subrange(i, clause_at(t, i, true)->Ok_0.1) == clause_at(t, i, true)->Ok_0.0.text(),
{
    lemma_clause_advances(t, i, true);
    lemma_atom_advances(t, i, true, Construct::Statement);
    lemma_written_atom(t, i, Construct::Statement);
    let clause = clause_at(t, i, true)->Ok_0.0;
    let end = clause_at(t, i, true)->Ok_0.1;
    let head = atom_at(t, i, true, Construct::Statement)->Ok_0.0;
    let j = atom_at(t, i, true, Construct::Statement)->Ok_0.1;
    if token_at(t, j, true, Punct::Dot) is Some {
        lemma_subrange_concat(t, i, j, end);
        assert(t.subrange(j, end) =~= seq!['.']);
    } else if token_at(t, j, true, Punct::Question) is Some {
        lemma_subrange_concat(t, i, j, end);
        assert(t.subrange(j, end) =~= seq!['?']);
    } else {
        let k = j + 4;
        lemma_atom_advances(t, k, true, Construct::Rule);
        lemma_written_atom(t, k, Construct::Rule);
        let first = atom_at(t, k, true, Construct::Rule)->Ok_0.0;
        let m = atom_at(t, k, true, Construct::Rule)->Ok_0.1;
        lemma_written_more_atoms(t, m);
        lemma_more_atoms_advances(t, m, true);
        let rest = more_atoms(t, m, true)->Ok_0.0;
        let body = seq![first] + rest;
        assert(body.drop_first() =~= rest);
        assert(t.subrange(j, k) =~= seq![' ', ':', '-', ' ']);
        lemma_subrange_concat(t, i, j, end);
        lemma_subrange_concat(t, j, k, end);
        lemma_subrange_concat(t, k, m, end);
        assert(clause.text() =~= head.text() + (seq![' ', ':', '-', ' '] + (first.text() + (
        comma_atoms(rest) + seq!['.']))));
    }
}

proof fn lemma_plain_more_terms(t: Seq<char>, i: int, canonical: bool)
    requires
        0 <= i <= t.len(),
    ensures
        more_terms(t, i, canonical) matches Ok((args, _)) ==> forall|k: int|
            0 <= k < args.len() ==> (#[trigger] args[k]).is_plain(),
    decreases t.len() - i,
{
    if token_at(t, i, canonical, Punct::Close) is None {
        if let Some(j) = token_at(t, i, canonical, Punct::Comma) {
            lemma_token_advances(t, i, canonical, Punct::Comma);
            lemma_term_advances(t, j, canonical, Expected::Argument);
            if let Ok((_, k)) = term_at(t, j, canonical, Expected::Argument) {
                lemma_plain_more_terms(t, k, canonical);
            }
        }
    }
}

proof fn lemma_plain_atom(t: Seq<char>, i: int, canonical: bool, context: Construct)
    requires
        0 <= i <= t.len(),
    ensures
        atom_at(t, i, canonical, context) matches Ok((atom, _)) ==> atom.is_plain(),
{
    lemma_ident_end(t, i);
    let name_end = ident_end(t, i);
    if let Some(j) = token_at(t, name_end, canonical, Punct::Open) {
        lemma_token_advances(t, name_end, canonical, Punct::Open);
        lemma_term_advances(t, j, canonical, Expected::ArgumentOrCloseParen);
        if let Ok((_, k)) = term_at(t, j, canonical, Expected::ArgumentOrCloseParen) {
            lemma_plain_more_terms(t, k, canonical);
        }
    }
}

proof fn lemma_plain_more_atoms(t: Seq<char>, i: int, canonical: bool)
    requires
        0 <= i <= t.len(),
    ensures
        more_atoms(t, i, canonical) matches Ok((atoms, _)) ==> forall|k: int|
            0 <= k < atoms.len() ==> (#[trigger] atoms[k]).is_plain(),
    decreases t.len() - i,
{
    if token_at(t, i, canonical, Punct::Dot) is None {
        if let Some(j) = token_at(t, i, canonical, Punct::BodyComma) {
            lemma_token_advances(t, i, canonical, Punct::BodyComma);
            lemma_atom_advances(t, j, canonical, Construct::Rule);
            lemma_plain_atom(t, j, canonical, Construct::Rule);
            if let Ok((_, k)) = atom_at(t, j, canonical, Construct::Rule) {
                lemma_plain_more_atoms(t, k, canonical);
            }
        }
    }
}

proof fn lemma_plain_clause(t: Seq<char>, i: int, canonical: bool)
    requires
        0 <= i <= t.len(),
    ensures
        clause_at(t, i, canonical) matches Ok((clause, _)) ==> clause.is_plain(),
{
    lemma_plain_atom(t, i, canonical, Construct::Statement);
    lemma_atom_advances(t, i, canonical, Construct::Statement);
    if let Ok((_, j)) = atom_at(t, i, canonical, Construct::Statement) {
        if let Some(k) = token_at(t, j, canonical, Punct::Arrow) {
            lemma_token_advances(t, j, canonical, Punct::Arrow);
            lemma_plain_atom(t, k, canonical, Construct::Rule);
            lemma_atom_advances(t, k, canonical, Construct::Rule);
            if let Ok((_, m)) = atom_at(t, k, canonical, Construct::Rule) {
                lemma_plain_more_atoms(t, m, canonical);
            }
        }
    }
}

/// What the parser gives for a text is a well-formed statement without
/// free-variable marks.
pub proof fn lemma_parsed_is_readable(t: Seq<char>, canonical: bool)
    ensures
        statement_of(t, canonical) matches Ok(clause) ==> clause.wf() && clause.is_plain(),
{
    lemma_layout_end(t, 0);
    let start = if canonical {
        0
    } else {
        layout_end(t, 0)
    };
    lemma_plain_clause(t, start, canonical);
}

/// Escape inverse: the text of a literal is read back as that literal,
/// whatever characters its payload holds.
pub proof fn lemma_literal_round_trip(payload: Seq<char>)
    requires
        payload.len() > 0,
    ensures
        literal_of(Term::Literal(payload).text(), false) == Ok::<Term, ParseError>(
            Term::Literal(payload),
        ),
        literal_of(Term::Literal(payload).text(), true) == Ok::<Term, ParseError>(
            Term::Literal(payload),
        ),
{
    let t = Term::Literal(payload).text();
    let body = escaped(payload) + seq!['\''];
    assert(t == seq!['\''] + body) by {
        assert(t =~= seq!['\''] + body);
    }
    assert(placed(t, 0, t)) by {
        assert(t.subrange(0, t.len() as int) =~= t);
    }
    lemma_placed_concat(t, 0, seq!['\''], body);
    assert(char_at(t, 0, '\'')) by {
        lemma_placed_at(t, 0, seq!['\''], 0);
    }
    lemma_read_escaped(t, 1, payload);
    lemma_lenient_literal(t, 1);
    assert(t.len() == escaped(payload).len() + 2);
}

/// The parser and the writer agree: the canonical text of a well-formed
/// plain statement is read back as that statement, by the lenient reading
/// and by the canonical one.
pub proof fn lemma_parse_of_text(clause: Clause)
    requires
        clause.wf(),
        clause.is_plain(),
    ensures
        statement_of(clause.text(), false) == Ok::<Clause, ParseError>(clause),
        statement_of(clause.text(), true) == Ok::<Clause, ParseError>(clause),
{
    let t = clause.text();
    let end = t.len() as int;
    assert(placed(t, 0, t)) by {
        assert(t.subrange(0, end) =~= t);
    }
    assert(clause_at(t, 0, true) == Ok::<(Clause, int), SyntaxError>((clause, end))) by {
        lemma_read_clause(t, 0, clause);
    }
    assert(clause_at(t, 0, false) == Ok::<(Clause, int), SyntaxError>((clause, end))
        && layout_end(t, 0) == 0) by {
        lemma_lenient_clause(t, 0);
        assert(layout_end(t, end) == end);
    }
}

/// Round trip: a text that is a statement in canonical form, that is with
/// no layout but the canonical one and with every character of a literal
/// that has an escape written escaped, is accepted by the parser, as the
/// statement whose canonical text it is.
pub proof fn lemma_round_trip(t: Seq<char>)
    requires
        statement_of(t, true) is Ok,
    ensures
        statement_of(t, false) == statement_of(t, true),
        statement_of(t, false)->Ok_0.text() == t,
        statement_of(t, false)->Ok_0.wf(),
{
    lemma_lenient_clause(t, 0);
    lemma_written_clause(t, 0);
    lemma_clause_advances(t, 0, true);
    assert(t.subrange(0, t.len() as int) =~= t);
}

/// Each of `clauses` is well formed and plain.
pub open spec fn all_readable_clauses(clauses: Seq<Clause>) -> bool {
    forall|k: int|
        0 <= k < clauses.len() ==> (#[trigger] clauses[k]).wf() && clauses[k].is_plain()
}

proof fn lemma_read_lines(t: Seq<char>, i: int, clauses: Seq<Clause>)
    requires
        all_readable_clauses(clauses),
        placed(t, i, lines_of(clauses)),
        i + lines_of(clauses).len() == t.len(),
    ensures
        statements_from(t, i) == Ok::<Seq<Clause>, ParseError>(clauses),
        layout_end(t, i) == i,
    decreases clauses.len(),
{
    if clauses.len() == 0 {
        assert(clauses =~= Seq::<Clause>::empty());
    } else {
        let first = clauses[0];
        let rest = clauses.drop_first();
        let tail = seq!['\n'] + lines_of(rest);
        assert(lines_of(clauses) =~= first.text() + tail);
        lemma_placed_concat(t, i, first.text(), tail);
        let j = i + first.text().len();
        lemma_placed_concat(t, j, seq!['\n'], lines_of(rest));
        lemma_placed_at(t, j, seq!['\n'], 0);
        assert(all_readable_clauses(rest)) by {
            assert forall|k: int| 0 <= k < rest.len() implies (#[trigger] rest[k]).wf()
                && rest[k].is_plain() by {
                assert(rest[k] == clauses[k + 1]);
            }
        }
        lemma_read_clause(t, i, first);
        lemma_lenient_clause(t, i);
        lemma_read_lines(t, j + 1, rest);
        assert(layout_end(t, j) == layout_end(t, j + 1));
        assert(seq![first] + rest =~= clauses);
    }
}

/// Sink durability, for the text: reading back the lines that a sink
/// holds after it took well-formed plain statements gives exactly those
/// statements, in the order in which they were added.
pub proof fn lemma_document_of_lines(clauses: Seq<Clause>)
    requires
        all_readable_clauses(clauses),
    ensures
        document_of(lines_of(clauses)) == Ok::<Seq<Clause>, ParseError>(clauses),
{
    let t = lines_of(clauses);
    assert(t.subrange(0, t.len() as int) =~= t);
    lemma_read_lines(t, 0, clauses);
}

/// Ground-fact rejection: the parser never gives a fact with an argument
/// that is no literal.
pub proof fn lemma_parsed_fact_is_ground(t: Seq<char>, canonical: bool)
    ensures
        statement_of(t, canonical) matches Ok(Clause::Fact(atom)) ==> atom.is_ground(),
{
}

/// The statements in canonical form are exactly the canonical texts of
/// the well-formed plain statements.
pub proof fn lemma_canonical_texts(t: Seq<char>)
    ensures
        statement_of(t, true) is Ok <==> exists|clause: Clause|
            clause.wf() && clause.is_plain() && #[trigger] clause.text() == t,
{
    if statement_of(t, true) is Ok {
        let clause = statement_of(t, true)->Ok_0;
        lemma_round_trip(t);
        lemma_parsed_is_readable(t, true);
        assert(clause.wf() && clause.is_plain() && clause.text() == t);
    }
    if exists|clause: Clause| clause.wf() && clause.is_plain() && #[trigger] clause.text() == t {
        let clause = choose|clause: Clause|
            clause.wf() && clause.is_plain() && #[trigger] clause.text() == t;
        lemma_parse_of_text(clause);
    }
}

/// Whatever text the parser accepts, writing the statement and parsing
/// what was written gives the same statement again.
pub proof fn lemma_reparse(t: Seq<char>)
    requires
        statement_of(t, false) is Ok,
    ensures
        statement_of(statement_of(t, false)->Ok_0.text(), false) == statement_of(t, false),
{
    lemma_parsed_is_readable(t, false);
    lemma_parse_of_text(statement_of(t, false)->Ok_0);
}

} // verus!
