//! The lines of a text, and the law that the text of a sink has one line
//! for each statement, in order.

use crate::model::{comma_atoms, comma_terms, lemma_first_atom_defect, lemma_first_defect};
use crate::model::{lines_of, Atom, Clause, Term};
use crate::roundtrip::{lemma_placed_at, lemma_placed_concat, placed};
use crate::text::{escaped, escaped_char, ident_at, is_identifier};
use vstd::prelude::*;

verus! {

/// The first position from `i` on that holds a line feed, or the end of
/// the text.
pub open spec fn line_end(t: Seq<char>, i: int) -> int
    decreases t.len() - i,
{
    if 0 <= i < t.len() && t[i] != '\n' {
        line_end(t, i + 1)
    } else {
        i
    }
}

/// The lines of `t` from position `i` on, each without its line feed. A
/// last line need not end in a line feed.
pub open spec fn lines_from(t: Seq<char>, i: int) -> Seq<Seq<char>>
    decreases t.len() - i,
{
    if !(0 <= i < t.len()) {
        Seq::empty()
    } else if line_end(t, i) >= t.len() {
        seq![t.subrange(i, t.len() as int)]
    } else {
        proof {
            lemma_line_end_bounds(t, i);
        }
        seq![t.subrange(i, line_end(t, i))] + lines_from(t, line_end(t, i) + 1)
    }
}

/// The lines of `t`, each without its line feed.
pub open spec fn lines_in(t: Seq<char>) -> Seq<Seq<char>> {
    lines_from(t, 0)
}

/// The canonical texts of `clauses`, in order.
pub open spec fn texts_of(clauses: Seq<Clause>) -> Seq<Seq<char>> {
    Seq::new(clauses.len(), |k: int| clauses[k].text())
}

/// `s` holds no line feed.
pub open spec fn one_line(s: Seq<char>) -> bool {
    forall|k: int| 0 <= k < s.len() ==> #[trigger] s[k] != '\n'
}

pub proof fn lemma_line_end_bounds(t: Seq<char>, i: int)
    requires
        0 <= i <= t.len(),
    ensures
        i <= line_end(t, i) <= t.len(),
    decreases t.len() - i,
{
    if i < t.len() && t[i] != '\n' {
        lemma_line_end_bounds(t, i + 1);
    }
}

proof fn lemma_line_end(t: Seq<char>, i: int, n: int)
    requires
        0 <= i,
        0 <= n,
        i + n < t.len(),
        forall|k: int| i <= k < i + n ==> #[trigger] t[k] != '\n',
        t[i + n] == '\n',
    ensures
        line_end(t, i) == i + n,
    decreases n,
{
    if n > 0 {
        lemma_line_end(t, i + 1, n - 1);
    }
}

proof fn lemma_one_line_concat(a: Seq<char>, b: Seq<char>)
    requires
        one_line(a),
        one_line(b),
    ensures
        one_line(a + b),
{
}

proof fn lemma_escaped_one_line(s: Seq<char>)
    ensures
        one_line(escaped(s)),
    decreases s.len(),
{
    if s.len() > 0 {
        lemma_escaped_one_line(s.drop_first());
        assert(one_line(escaped_char(s[0])));
        lemma_one_line_concat(escaped_char(s[0]), escaped(s.drop_first()));
    }
}

proof fn lemma_identifier_one_line(name: Seq<char>)
    requires
        is_identifier(name),
    ensures
        one_line(name),
{
    assert forall|k: int| 0 <= k < name.len() implies #[trigger] name[k] != '\n' by {
        assert(ident_at(name, k));
    }
}

proof fn lemma_term_one_line(term: Term)
    requires
        term.wf(),
    ensures
        one_line(term.text()),
{
    match term {
        Term::Literal(payload) => {
            lemma_escaped_one_line(payload);
        },
        Term::Variable(name) | Term::FreeVariable(name) => {
            lemma_identifier_one_line(name);
        },
    }
}

proof fn lemma_comma_terms_one_line(args: Seq<Term>)
    requires
        forall|k: int| 0 <= k < args.len() ==> (#[trigger] args[k]).wf(),
    ensures
        one_line(comma_terms(args)),
    decreases args.len(),
{
    if args.len() > 0 {
        let rest = args.drop_first();
        assert forall|k: int| 0 <= k < rest.len() implies (#[trigger] rest[k]).wf() by {
            assert(rest[k] == args[k + 1]);
        }
        lemma_comma_terms_one_line(rest);
        lemma_term_one_line(args[0]);
    }
}

proof fn lemma_atom_one_line(atom: Atom)
    requires
        atom.wf(),
    ensures
        one_line(atom.text()),
{
    let args = atom.args;
    lemma_identifier_one_line(atom.name);
    lemma_first_defect(args);
    if args.len() > 0 {
        let rest = args.drop_first();
        assert forall|k: int| 0 <= k < rest.len() implies (#[trigger] rest[k]).wf() by {
            assert(rest[k] == args[k + 1]);
        }
        lemma_comma_terms_one_line(rest);
        lemma_term_one_line(args[0]);
    }
}

proof fn lemma_comma_atoms_one_line(atoms: Seq<Atom>)
    requires
        forall|k: int| 0 <= k < atoms.len() ==> (#[trigger] atoms[k]).wf(),
    ensures
        one_line(comma_atoms(atoms)),
    decreases atoms.len(),
{
    if atoms.len() > 0 {
        let rest = atoms.drop_first();
        assert forall|k: int| 0 <= k < rest.len() implies (#[trigger] rest[k]).wf() by {
            assert(rest[k] == atoms[k + 1]);
        }
        lemma_comma_atoms_one_line(rest);
        lemma_atom_one_line(atoms[0]);
    }
}

/// The canonical text of a well-formed statement holds no line feed: one
/// that stands in a literal is written as an escape.
pub proof fn lemma_clause_one_line(clause: Clause)
    requires
        clause.wf(),
    ensures
        one_line(clause.text()),
{
    match clause {
        Clause::Fact(atom) => {
            lemma_atom_one_line(atom);
        },
        Clause::Query(atom) => {
            lemma_atom_one_line(atom);
        },
        Clause::Rule(head, body) => {
            lemma_atom_one_line(head);
            lemma_first_atom_defect(body);
            let rest = body.drop_first();
            assert forall|k: int| 0 <= k < rest.len() implies (#[trigger] rest[k]).wf() by {
                assert(rest[k] == body[k + 1]);
            }
            lemma_comma_atoms_one_line(rest);
            lemma_atom_one_line(body[0]);
        },
    }
}

proof fn lemma_lines_from(t: Seq<char>, i: int, clauses: Seq<Clause>)
    requires
        forall|k: int| 0 <= k < clauses.len() ==> (#[trigger] clauses[k]).wf(),
        placed(t, i, lines_of(clauses)),
        i + lines_of(clauses).len() == t.len(),
    ensures
        lines_from(t, i) == texts_of(clauses),
    decreases clauses.len(),
{
    if clauses.len() == 0 {
        assert(texts_of(clauses) =~= Seq::<Seq<char>>::empty());
    } else {
        let first = clauses[0];
        let rest = clauses.drop_first();
        let tail = seq!['\n'] + lines_of(rest);
        assert(lines_of(clauses) =~= first.text() + tail);
        lemma_placed_concat(t, i, first.text(), tail);
        let j = i + first.text().len();
        lemma_placed_concat(t, j, seq!['\n'], lines_of(rest));
        lemma_placed_at(t, j, seq!['\n'], 0);
        lemma_clause_one_line(first);
        assert forall|k: int| i <= k < j implies #[trigger] t[k] != '\n' by {
            lemma_placed_at(t, i, first.text(), k - i);
        }
        lemma_line_end(t, i, first.text().len() as int);
        assert forall|k: int| 0 <= k < rest.len() implies (#[trigger] rest[k]).wf() by {
            assert(rest[k] == clauses[k + 1]);
        }
        lemma_lines_from(t, j + 1, rest);
        assert(texts_of(clauses) =~= seq![first.text()] + texts_of(rest)) by {
            assert forall|k: int| 0 < k < clauses.len() implies clauses[k] == rest[k - 1] by {}
        }
    }
}

/// Sink durability, for the lines: the text that a sink holds after it
/// took well-formed statements has exactly one line for each of them, in
/// the order in which they were added, and each line is the canonical
/// text of its statement.
pub proof fn lemma_lines_of_sink(clauses: Seq<Clause>)
    requires
        forall|k: int| 0 <= k < clauses.len() ==> (#[trigger] clauses[k]).wf(),
    ensures
        lines_in(lines_of(clauses)) == texts_of(clauses),
        lines_in(lines_of(clauses)).len() == clauses.len(),
{
    let t = lines_of(clauses);
    assert(t.subrange(0, t.len() as int) =~= t);
    lemma_lines_from(t, 0, clauses);
}

} // verus!
