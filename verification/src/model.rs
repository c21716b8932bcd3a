//! The mathematical models of the data: terms, atoms and clauses, what
//! makes them well formed, and their canonical text.

use crate::predicates::ValidationError;
use crate::text::{escaped, escaped_char, ident_at, is_identifier};
use vstd::prelude::*;

verus! {

/// The model of an [`ID`](crate::predicates::ID).
pub enum Term {
    Literal(Seq<char>),
    Variable(Seq<char>),
    FreeVariable(Seq<char>),
}

impl Term {
    /// What is wrong with this term, if anything: a literal needs text, a
    /// variable needs a name that is an identifier and does not begin with
    /// a quote, since what begins with a quote is read as a literal.
    pub open spec fn defect(self) -> Option<ValidationError> {
        match self {
            Term::Literal(text) => if text.len() == 0 {
                Some(ValidationError::EmptyLiteral)
            } else {
                None
            },
            Term::Variable(name) | Term::FreeVariable(name) => if name.len() == 0 {
                Some(ValidationError::EmptyVariable)
            } else if !is_identifier(name) || name[0] == '\'' {
                Some(ValidationError::InvalidVariable)
            } else {
                None
            },
        }
    }

    pub open spec fn wf(self) -> bool {
        self.defect() is None
    }

    /// A term is ground when it is a literal.
    pub open spec fn is_ground(self) -> bool {
        self is Literal
    }

    /// A term is plain when it carries no free-variable mark. The text
    /// does not show the mark, so only a plain term is read back as it
    /// was written.
    pub open spec fn is_plain(self) -> bool {
        !(self is FreeVariable)
    }

    /// The canonical text: a literal between quotes with its payload
    /// escaped, a variable as its bare name.
    pub open spec fn text(self) -> Seq<char> {
        match self {
            Term::Literal(text) => seq!['\''] + escaped(text) + seq!['\''],
            Term::Variable(name) | Term::FreeVariable(name) => name,
        }
    }
}

/// The defect of the first term that has one.
pub open spec fn first_defect(args: Seq<Term>) -> Option<ValidationError>
    decreases args.len(),
{
    if args.len() == 0 {
        None
    } else if args[0].defect() is Some {
        args[0].defect()
    } else {
        first_defect(args.drop_first())
    }
}

/// The text of each term with a comma before it.
pub open spec fn comma_terms(args: Seq<Term>) -> Seq<char>
    decreases args.len(),
{
    if args.len() == 0 {
        Seq::empty()
    } else {
        seq![','] + args[0].text() + comma_terms(args.drop_first())
    }
}

/// The texts of the terms with one comma between neighbours.
pub open spec fn join_terms(args: Seq<Term>) -> Seq<char> {
    if args.len() == 0 {
        Seq::empty()
    } else {
        args[0].text() + comma_terms(args.drop_first())
    }
}

/// The model of a [`Pred`](crate::predicates::Pred): a name applied to
/// terms.
pub struct Atom {
    pub name: Seq<char>,
    pub args: Seq<Term>,
}

impl Atom {
    /// What is wrong with this atom, if anything: its name first, then its
    /// arguments from left to right.
    pub open spec fn defect(self) -> Option<ValidationError> {
        if self.name.len() == 0 {
            Some(ValidationError::EmptyName)
        } else if !is_identifier(self.name) {
            Some(ValidationError::InvalidName)
        } else {
            first_defect(self.args)
        }
    }

    pub open spec fn wf(self) -> bool {
        self.defect() is None
    }

    /// An atom is ground when every argument is a literal.
    pub open spec fn is_ground(self) -> bool {
        forall|i: int| 0 <= i < self.args.len() ==> (#[trigger] self.args[i]).is_ground()
    }

    /// An atom is plain when every argument is.
    pub open spec fn is_plain(self) -> bool {
        forall|i: int| 0 <= i < self.args.len() ==> (#[trigger] self.args[i]).is_plain()
    }

    /// The canonical text: the name, then the arguments between
    /// parentheses.
    pub open spec fn text(self) -> Seq<char> {
        self.name + seq!['('] + join_terms(self.args) + seq![')']
    }
}

/// The defect of the first atom that has one.
pub open spec fn first_atom_defect(atoms: Seq<Atom>) -> Option<ValidationError>
    decreases atoms.len(),
{
    if atoms.len() == 0 {
        None
    } else if atoms[0].defect() is Some {
        atoms[0].defect()
    } else {
        first_atom_defect(atoms.drop_first())
    }
}

/// The text of each atom with a comma and a space before it.
pub open spec fn comma_atoms(atoms: Seq<Atom>) -> Seq<char>
    decreases atoms.len(),
{
    if atoms.len() == 0 {
        Seq::empty()
    } else {
        seq![',', ' '] + atoms[0].text() + comma_atoms(atoms.drop_first())
    }
}

/// The texts of the atoms with a comma and a space between neighbours.
pub open spec fn join_atoms(atoms: Seq<Atom>) -> Seq<char> {
    if atoms.len() == 0 {
        Seq::empty()
    } else {
        atoms[0].text() + comma_atoms(atoms.drop_first())
    }
}

/// The model of a [`Stmt`](crate::predicates::Stmt).
pub enum Clause {
    Fact(Atom),
    Rule(Atom, Seq<Atom>),
    Query(Atom),
}

impl Clause {
    /// What is wrong with this clause, if anything. A fact must be ground,
    /// a rule must have a body, and every atom must be well formed.
    pub open spec fn defect(self) -> Option<ValidationError> {
        match self {
            Clause::Fact(atom) => if atom.defect() is Some {
                atom.defect()
            } else if !atom.is_ground() {
                Some(ValidationError::NonGroundFact)
            } else {
                None
            },
            Clause::Rule(head, body) => if head.defect() is Some {
                head.defect()
            } else if body.len() == 0 {
                Some(ValidationError::EmptyBody)
            } else {
                first_atom_defect(body)
            },
            Clause::Query(atom) => atom.defect(),
        }
    }

    pub open spec fn wf(self) -> bool {
        self.defect() is None
    }

    /// A clause is plain when every atom of it is.
    pub open spec fn is_plain(self) -> bool {
        match self {
            Clause::Fact(atom) => atom.is_plain(),
            Clause::Rule(head, body) => head.is_plain() && forall|i: int|
                0 <= i < body.len() ==> (#[trigger] body[i]).is_plain(),
            Clause::Query(atom) => atom.is_plain(),
        }
    }

    /// The canonical text of the statement, without a line end.
    pub open spec fn text(self) -> Seq<char> {
        match self {
            Clause::Fact(atom) => atom.text() + seq!['.'],
            Clause::Rule(head, body) => head.text() + seq![' ', ':', '-', ' '] + join_atoms(body)
                + seq!['.'],
            Clause::Query(atom) => atom.text() + seq!['?'],
        }
    }

    /// The line that a sink holds for the statement.
    pub open spec fn line(self) -> Seq<char> {
        self.text() + seq!['\n']
    }
}

/// The text that a sink holds after it took `clauses` in this order: one
/// line for each.
pub open spec fn lines_of(clauses: Seq<Clause>) -> Seq<char>
    decreases clauses.len(),
{
    if clauses.len() == 0 {
        Seq::empty()
    } else {
        clauses[0].line() + lines_of(clauses.drop_first())
    }
}

/// How often `c` occurs in `s`.
pub open spec fn occurrences(s: Seq<char>, c: char) -> nat
    decreases s.len(),
{
    if s.len() == 0 {
        0
    } else if s[0] == c {
        1 + occurrences(s.drop_first(), c)
    } else {
        occurrences(s.drop_first(), c)
    }
}

/// No term has a defect exactly when every term is well formed.
pub proof fn lemma_first_defect(args: Seq<Term>)
    ensures
        first_defect(args) is None <==> forall|i: int|
            0 <= i < args.len() ==> (#[trigger] args[i]).wf(),
    decreases args.len(),
{
    if args.len() > 0 {
        let rest = args.drop_first();
        lemma_first_defect(rest);
        if first_defect(args) is None {
            assert forall|i: int| 0 <= i < args.len() implies (#[trigger] args[i]).wf() by {
                if i > 0 {
                    assert(args[i] == rest[i - 1]);
                }
            }
        } else if args[0].defect() is None {
            let j = choose|j: int| 0 <= j < rest.len() && !(#[trigger] rest[j]).wf();
            assert(args[j + 1] == rest[j]);
        }
    }
}

/// No atom has a defect exactly when every atom is well formed.
pub proof fn lemma_first_atom_defect(atoms: Seq<Atom>)
    ensures
        first_atom_defect(atoms) is None <==> forall|i: int|
            0 <= i < atoms.len() ==> (#[trigger] atoms[i]).wf(),
    decreases atoms.len(),
{
    if atoms.len() > 0 {
        let rest = atoms.drop_first();
        lemma_first_atom_defect(rest);
        if first_atom_defect(atoms) is None {
            assert forall|i: int| 0 <= i < atoms.len() implies (#[trigger] atoms[i]).wf() by {
                if i > 0 {
                    assert(atoms[i] == rest[i - 1]);
                }
            }
        } else if atoms[0].defect() is None {
            let j = choose|j: int| 0 <= j < rest.len() && !(#[trigger] rest[j]).wf();
            assert(atoms[j + 1] == rest[j]);
        }
    }
}

proof fn lemma_occurrences_concat(a: Seq<char>, b: Seq<char>, c: char)
    ensures
        occurrences(a + b, c) == occurrences(a, c) + occurrences(b, c),
    decreases a.len(),
{
    if a.len() == 0 {
        assert(a + b =~= b);
    } else {
        assert((a + b).drop_first() =~= a.drop_first() + b);
        lemma_occurrences_concat(a.drop_first(), b, c);
    }
}

proof fn lemma_occurrences_none(s: Seq<char>, c: char)
    requires
        forall|i: int| 0 <= i < s.len() ==> s[i] != c,
    ensures
        occurrences(s, c) == 0,
    decreases s.len(),
{
    if s.len() > 0 {
        let rest = s.drop_first();
        assert forall|i: int| 0 <= i < rest.len() implies rest[i] != c by {
            assert(rest[i] == s[i + 1]);
        }
        lemma_occurrences_none(rest, c);
    }
}

/// Escaping neither adds nor removes a comma.
proof fn lemma_escaped_commas(s: Seq<char>)
    ensures
        occurrences(escaped(s), ',') == occurrences(s, ','),
    decreases s.len(),
{
    if s.len() > 0 {
        lemma_escaped_commas(s.drop_first());
        lemma_occurrences_concat(escaped_char(s[0]), escaped(s.drop_first()), ',');
        reveal_with_fuel(occurrences, 3);
        assert(escaped_char(s[0]).drop_first().len() <= 1);
    }
}

/// The commas in the text of a well-formed term are those of its payload
/// if it is a literal; a variable has none.
proof fn lemma_term_commas(term: Term)
    requires
        term.wf(),
    ensures
        occurrences(term.text(), ',') == match term {
            Term::Literal(payload) => occurrences(payload, ','),
            _ => 0,
        },
{
    match term {
        Term::Literal(payload) => {
            let quote = seq!['\''];
            lemma_escaped_commas(payload);
            lemma_occurrences_concat(quote + escaped(payload), quote, ',');
            lemma_occurrences_concat(quote, escaped(payload), ',');
            reveal_with_fuel(occurrences, 2);
        },
        Term::Variable(name) | Term::FreeVariable(name) => {
            assert forall|i: int| 0 <= i < name.len() implies name[i] != ',' by {
                assert(ident_at(name, i));
            }
            lemma_occurrences_none(name, ',');
        },
    }
}

proof fn lemma_comma_terms_commas(args: Seq<Term>)
    requires
        forall|i: int| 0 <= i < args.len() ==> (#[trigger] args[i]).wf(),
        forall|i: int|
            0 <= i < args.len() ==> (#[trigger] args[i] matches Term::Literal(payload)
                ==> occurrences(payload, ',') == 0),
    ensures
        occurrences(comma_terms(args), ',') == args.len(),
    decreases args.len(),
{
    if args.len() > 0 {
        let rest = args.drop_first();
        assert forall|i: int| 0 <= i < rest.len() implies (#[trigger] rest[i]).wf() && (
        rest[i] matches Term::Literal(payload) ==> occurrences(payload, ',') == 0) by {
            assert(rest[i] == args[i + 1]);
        }
        lemma_comma_terms_commas(rest);
        lemma_term_commas(args[0]);
        lemma_occurrences_concat(seq![','] + args[0].text(), comma_terms(rest), ',');
        lemma_occurrences_concat(seq![','], args[0].text(), ',');
        reveal_with_fuel(occurrences, 2);
    }
}

/// Arity: between the parentheses of a well-formed atom with arguments
/// there is one comma less than there are arguments, and none when there
/// is no argument. A comma inside a literal is text, not a separator, so
/// the count is stated of atoms whose literals hold no comma.
pub proof fn lemma_arity(atom: Atom)
    requires
        atom.wf(),
        forall|i: int|
            0 <= i < atom.args.len() ==> (#[trigger] atom.args[i] matches Term::Literal(payload)
                ==> occurrences(payload, ',') == 0),
    ensures
        atom.args.len() > 0 ==> atom.args.len() == occurrences(join_terms(atom.args), ',') + 1,
        atom.args.len() == 0 ==> occurrences(join_terms(atom.args), ',') == 0,
{
    let args = atom.args;
    lemma_first_defect(args);
    if args.len() > 0 {
        let rest = args.drop_first();
        assert forall|i: int| 0 <= i < rest.len() implies (#[trigger] rest[i]).wf() && (
        rest[i] matches Term::Literal(payload) ==> occurrences(payload, ',') == 0) by {
            assert(rest[i] == args[i + 1]);
        }
        lemma_comma_terms_commas(rest);
        lemma_term_commas(args[0]);
        lemma_occurrences_concat(args[0].text(), comma_terms(rest), ',');
    }
}

/// Ground facts: a well-formed fact has literals only, and a fact whose
/// atom is well formed but has an argument that is no literal has the
/// defect `NonGroundFact`.
pub proof fn lemma_fact_is_ground(atom: Atom)
    ensures
        Clause::Fact(atom).wf() ==> atom.is_ground(),
        atom.wf() && !atom.is_ground() ==> Clause::Fact(atom).defect() == Some(
            ValidationError::NonGroundFact,
        ),
{
}

/// A sink that took one more statement holds one more line at the end.
pub proof fn lemma_lines_push(clauses: Seq<Clause>, last: Clause)
    ensures
        lines_of(clauses.push(last)) == lines_of(clauses) + last.line(),
    decreases clauses.len(),
{
    let all = clauses.push(last);
    if clauses.len() == 0 {
        assert(all.drop_first() =~= Seq::<Clause>::empty());
        assert(lines_of(all.drop_first()) =~= Seq::<char>::empty());
        assert(lines_of(all) =~= last.line());
        assert(lines_of(clauses) + last.line() =~= last.line());
    } else {
        assert(all.drop_first() =~= clauses.drop_first().push(last));
        lemma_lines_push(clauses.drop_first(), last);
        assert(lines_of(all) =~= lines_of(clauses) + last.line());
    }
}

} // verus!
