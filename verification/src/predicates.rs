//! The data model: identifiers, predicates and statements, the checks that
//! make them well formed, and the writer of their canonical text.

use crate::model::{
    comma_atoms, comma_terms, first_atom_defect, first_defect, join_atoms, join_terms,
    lemma_first_atom_defect, lemma_first_defect, Atom, Clause, Term,
};
use crate::text::{escape_into, is_identifier, valid_identifier};
use vstd::prelude::*;
use vstd::string::{StrSliceExecFns, StringExecFns};

verus! {

/// Why a value that can be written down is still no statement.
#[derive(Debug, Clone, Copy, PartialEq, Eq)]
pub enum ValidationError {
    /// A predicate without a name.
    EmptyName,
    /// A predicate name that holds layout, one of `(`, `)`, `,`, `.` and
    /// `?`, or the mark `:-`.
    InvalidName,
    /// A literal without any text.
    EmptyLiteral,
    /// A variable without a name.
    EmptyVariable,
    /// A variable name that holds layout, one of `(`, `)`, `,`, `.` and
    /// `?`, or the mark `:-`, or that begins with a quote.
    InvalidVariable,
    /// A fact with an argument that is no literal.
    NonGroundFact,
    /// A rule without a body.
    EmptyBody,
}

/// An argument of a predicate. The variants can be built directly;
/// [`ID::validate`] checks one, and only a well-formed one can be written.
#[derive(Debug, PartialEq, Eq)]
pub enum ID {
    /// A quoted constant; the payload is the text itself, with no quotes
    /// and no escapes.
    Literal(String),
    /// A bare name that stands for any value.
    Variable(String),
    /// A variable that no other predicate of its rule binds. It is written
    /// like a variable and kept apart only for later safety checks.
    FreeVariable(String),
}

impl View for ID {
    type V = Term;

    open spec fn view(&self) -> Term {
        match self {
            ID::Literal(text) => Term::Literal(text@),
            ID::Variable(name) => Term::Variable(name@),
            ID::FreeVariable(name) => Term::FreeVariable(name@),
        }
    }
}

/// The models of a sequence of identifiers, in order.
pub open spec fn terms_of(ids: Seq<ID>) -> Seq<Term> {
    Seq::new(ids.len(), |i: int| ids[i]@)
}

impl ID {
    /// Checks the identifier: `Ok` when it is well formed, else its defect.
    pub fn validate(&self) -> (r: Result<(), ValidationError>)
        ensures
            r is Ok <==> self@.wf(),
            r matches Err(e) ==> self@.defect() == Some(e),
    {
        match self {
            ID::Literal(text) => {
                if text.as_str().is_empty() {
                    Err(ValidationError::EmptyLiteral)
                } else {
                    Ok(())
                }
            },
            ID::Variable(name) | ID::FreeVariable(name) => {
                if name.as_str().is_empty() {
                    Err(ValidationError::EmptyVariable)
                } else if !valid_identifier(name.as_str()) || name.as_str().get_char(0) == '\'' {
                    Err(ValidationError::InvalidVariable)
                } else {
                    Ok(())
                }
            },
        }
    }

    /// Tells whether the identifier is a literal.
    pub fn is_ground(&self) -> (b: bool)
        ensures
            b == self@.is_ground(),
    {
        match self {
            ID::Literal(_) => true,
            _ => false,
        }
    }

    /// Appends the canonical text of the identifier to `out`. Only a
    /// well-formed identifier has one.
    pub fn write_to(&self, out: &mut String)
        requires
            self@.wf(),
        ensures
            final(out)@ == old(out)@ + self@.text(),
    {
        match self {
            ID::Literal(text) => {
                out.push('\'');
                escape_into(out, text.as_str());
                out.push('\'');
                assert(out@ =~= old(out)@ + self@.text());
            },
            ID::Variable(name) | ID::FreeVariable(name) => {
                out.append(name.as_str());
            },
        }
    }

    /// The canonical text of the identifier. Only a well-formed
    /// identifier has one.
    pub fn render(&self) -> (out: String)
        requires
            self@.wf(),
        ensures
            out@ == self@.text(),
    {
        let mut out = String::new();
        self.write_to(&mut out);
        assert(out@ =~= self@.text());
        out
    }
}

/// What a predicate offers to its readers: a name and an ordered list of
/// arguments of type `T`.
pub trait Predicate<T> {
    /// The name, as characters.
    spec fn name_view(&self) -> Seq<char>;

    /// The arguments, in order.
    spec fn ids_view(&self) -> Seq<T>;

    fn name(&self) -> (name: &str)
        ensures
            name@ == self.name_view(),
    ;

    /// The number of arguments.
    fn len(&self) -> (n: usize)
        ensures
            n == self.ids_view().len(),
    ;

    fn ids(&self) -> (ids: &Vec<T>)
        ensures
            ids@ == self.ids_view(),
    ;

    /// Tells whether there is no argument.
    fn is_empty(&self) -> (b: bool)
        ensures
            b <==> self.ids_view().len() == 0,
    ;
}

/// A named predicate over identifiers. Every value is well formed: the
/// only ways to make one are [`Pred::new`] and [`Pred::from_parts`], and
/// both check.
#[derive(Debug, PartialEq, Eq)]
pub struct Pred {
    name: String,
    ids: Vec<ID>,
}

impl View for Pred {
    type V = Atom;

    closed spec fn view(&self) -> Atom {
        Atom { name: self.name@, args: terms_of(self.ids@) }
    }
}

/// The models of a sequence of predicates, in order.
pub open spec fn atoms_of(preds: Seq<Pred>) -> Seq<Atom> {
    Seq::new(preds.len(), |i: int| preds[i]@)
}

impl Predicate<ID> for Pred {
    closed spec fn name_view(&self) -> Seq<char> {
        self.name@
    }

    closed spec fn ids_view(&self) -> Seq<ID> {
        self.ids@
    }

    fn name(&self) -> (name: &str)
        ensures
            name@ == self@.name,
            self@.wf(),
    {
        proof {
            use_type_invariant(self);
        }
        self.name.as_str()
    }

    fn len(&self) -> (n: usize)
        ensures
            n == self@.args.len(),
    {
        self.ids.len()
    }

    fn ids(&self) -> (ids: &Vec<ID>)
        ensures
            terms_of(ids@) == self@.args,
    {
        &self.ids
    }

    fn is_empty(&self) -> (b: bool)
        ensures
            b <==> self@.args.len() == 0,
    {
        self.ids.len() == 0
    }
}

impl Pred {
    #[verifier::type_invariant]
    spec fn inv(self) -> bool {
        self@.wf()
    }

    /// Makes a predicate from its parts, or says what is wrong with them:
    /// the name is checked first, then the arguments from left to right.
    pub fn from_parts(name: String, ids: Vec<ID>) -> (r: Result<Pred, ValidationError>)
        ensures
            match (Atom { name: name@, args: terms_of(ids@) }).defect() {
                Some(e) => r == Err::<Pred, ValidationError>(e),
                None => r matches Ok(p) && p@ == (Atom { name: name@, args: terms_of(ids@) }),
            },
    {
        if name.as_str().is_empty() {
            return Err(ValidationError::EmptyName);
        }
        if !valid_identifier(name.as_str()) {
            return Err(ValidationError::InvalidName);
        }
        let ghost terms = terms_of(ids@);
        let mut i: usize = 0;
        assert(terms.skip(0) =~= terms);
        while i < ids.len()
            invariant
                i <= ids.len(),
                is_identifier(name@),
                terms == terms_of(ids@),
                first_defect(terms) == first_defect(terms.skip(i as int)),
            decreases ids.len() - i,
        {
            assert(terms.skip(i as int)[0] == ids[i as int]@);
            assert(terms.skip(i as int).drop_first() =~= terms.skip(i + 1));
            match ids[i].validate() {
                Ok(()) => {},
                Err(e) => {
                    return Err(e);
                },
            }
            i += 1;
        }
        Ok(Pred { name, ids })
    }

    /// Makes the predicate `name(ids)`, or says what is wrong with it.
    pub fn new(name: &str, ids: Vec<ID>) -> (r: Result<Pred, ValidationError>)
        ensures
            match (Atom { name: name@, args: terms_of(ids@) }).defect() {
                Some(e) => r == Err::<Pred, ValidationError>(e),
                None => r matches Ok(p) && p@ == (Atom { name: name@, args: terms_of(ids@) }),
            },
    {
        Pred::from_parts(name.to_owned(), ids)
    }

    /// Tells whether every argument is a literal.
    pub fn is_ground(&self) -> (b: bool)
        ensures
            b == self@.is_ground(),
    {
        let mut i: usize = 0;
        while i < self.ids.len()
            invariant
                i <= self.ids.len(),
                forall|j: int| 0 <= j < i ==> (#[trigger] self@.args[j]).is_ground(),
            decreases self.ids.len() - i,
        {
            if !self.ids[i].is_ground() {
                assert(self@.args[i as int] == self.ids[i as int]@);
                return false;
            }
            assert(self@.args[i as int] == self.ids[i as int]@);
            i += 1;
        }
        true
    }

    /// Appends the canonical text of the predicate to `out`.
    pub fn write_to(&self, out: &mut String)
        ensures
            final(out)@ == old(out)@ + self@.text(),
    {
        let ghost args = self@.args;
        proof {
            use_type_invariant(self);
            lemma_first_defect(args);
        }
        out.append(self.name.as_str());
        out.push('(');
        let ghost opened = out@;
        let n = self.ids.len();
        if n > 0 {
            assert(args[0] == self.ids[0]@);
            self.ids[0].write_to(out);
            let mut i: usize = 1;
            assert(args.drop_first() =~= args.skip(1));
            while i < n
                invariant
                    1 <= i <= n,
                    n == self.ids.len(),
                    args == self@.args,
                    forall|k: int| 0 <= k < args.len() ==> (#[trigger] args[k]).wf(),
                    out@ + comma_terms(args.skip(i as int)) == opened + join_terms(args),
                decreases n - i,
            {
                let ghost before = out@;
                assert(args[i as int] == self.ids[i as int]@);
                out.push(',');
                self.ids[i].write_to(out);
                proof {
                    let rest = args.skip(i as int);
                    assert(rest[0] == self.ids[i as int]@);
                    assert(rest.drop_first() =~= args.skip(i + 1));
                    assert(out@ =~= before + (seq![','] + rest[0].text()));
                    assert(before + comma_terms(rest) =~= out@ + comma_terms(args.skip(i + 1)));
                }
                i += 1;
            }
            assert(out@ + Seq::<char>::empty() =~= out@);
        } else {
            assert(opened + Seq::<char>::empty() =~= opened);
        }
        out.push(')');
        assert(out@ =~= old(out)@ + self@.text());
    }

    /// The canonical text of the predicate.
    pub fn render(&self) -> (out: String)
        ensures
            out@ == self@.text(),
    {
        let mut out = String::new();
        self.write_to(&mut out);
        assert(out@ =~= self@.text());
        out
    }
}

/// A statement of the language.
///
/// The variants can be built directly; [`Stmt::fact`], [`Stmt::rule`] and
/// [`Stmt::query`] build them checked, and [`Stmt::validate`] checks one
/// that was built directly. The writer and the sinks take well-formed
/// statements only.
#[derive(Debug, PartialEq, Eq)]
pub enum Stmt {
    /// A predicate stated to hold; all its arguments are literals.
    Fact(Pred),
    /// A head that holds whenever every predicate of the body holds.
    Rule(Pred, Vec<Pred>),
    /// A predicate asked for.
    Query(Pred),
}

impl View for Stmt {
    type V = Clause;

    open spec fn view(&self) -> Clause {
        match self {
            Stmt::Fact(pred) => Clause::Fact(pred@),
            Stmt::Rule(head, body) => Clause::Rule(head@, atoms_of(body@)),
            Stmt::Query(pred) => Clause::Query(pred@),
        }
    }
}

/// Walks over `preds` to learn that each of them is well formed.
fn all_well_formed(preds: &Vec<Pred>)
    ensures
        first_atom_defect(atoms_of(preds@)) is None,
{
    let mut i: usize = 0;
    while i < preds.len()
        invariant
            i <= preds.len(),
            forall|j: int| 0 <= j < i ==> (#[trigger] atoms_of(preds@)[j]).wf(),
        decreases preds.len() - i,
    {
        let pred = &preds[i];
        proof {
            use_type_invariant(pred);
        }
        i += 1;
    }
    proof {
        lemma_first_atom_defect(atoms_of(preds@));
    }
}

impl Stmt {
    /// The fact `pred.`; refused when an argument is no literal.
    pub fn fact(pred: Pred) -> (r: Result<Stmt, ValidationError>)
        ensures
            pred@.is_ground() ==> r == Ok::<Stmt, ValidationError>(Stmt::Fact(pred)),
            !pred@.is_ground() ==> r == Err::<Stmt, ValidationError>(
                ValidationError::NonGroundFact,
            ),
            r matches Ok(stmt) ==> stmt@.wf(),
    {
        proof {
            use_type_invariant(&pred);
        }
        if pred.is_ground() {
            Ok(Stmt::Fact(pred))
        } else {
            Err(ValidationError::NonGroundFact)
        }
    }

    /// The rule `head :- body.`; refused when the body is empty.
    pub fn rule(head: Pred, body: Vec<Pred>) -> (r: Result<Stmt, ValidationError>)
        ensures
            body.len() > 0 ==> r == Ok::<Stmt, ValidationError>(Stmt::Rule(head, body)),
            body.len() == 0 ==> r == Err::<Stmt, ValidationError>(ValidationError::EmptyBody),
            r matches Ok(stmt) ==> stmt@.wf(),
    {
        proof {
            use_type_invariant(&head);
        }
        if body.len() == 0 {
            Err(ValidationError::EmptyBody)
        } else {
            all_well_formed(&body);
            Ok(Stmt::Rule(head, body))
        }
    }

    /// The query `pred?`.
    pub fn query(pred: Pred) -> (stmt: Stmt)
        ensures
            stmt == Stmt::Query(pred),
            stmt@.wf(),
    {
        proof {
            use_type_invariant(&pred);
        }
        Stmt::Query(pred)
    }

    /// Checks the statement: `Ok` when it is well formed, else its defect.
    pub fn validate(&self) -> (r: Result<(), ValidationError>)
        ensures
            r is Ok <==> self@.wf(),
            r matches Err(e) ==> self@.defect() == Some(e),
    {
        match self {
            Stmt::Fact(pred) => {
                proof {
                    use_type_invariant(pred);
                }
                if pred.is_ground() {
                    Ok(())
                } else {
                    Err(ValidationError::NonGroundFact)
                }
            },
            Stmt::Rule(head, body) => {
                proof {
                    use_type_invariant(head);
                }
                if body.len() == 0 {
                    Err(ValidationError::EmptyBody)
                } else {
                    all_well_formed(body);
                    Ok(())
                }
            },
            Stmt::Query(pred) => {
                proof {
                    use_type_invariant(pred);
                }
                Ok(())
            },
        }
    }

    /// Appends the canonical text of the statement to `out`. Only a
    /// well-formed statement has one: a statement built from a variant is
    /// to pass [`Stmt::validate`] first.
    pub fn write_to(&self, out: &mut String)
        requires
            self@.wf(),
        ensures
            final(out)@ == old(out)@ + self@.text(),
    {
        match self {
            Stmt::Fact(pred) => {
                pred.write_to(out);
                out.push('.');
                assert(out@ =~= old(out)@ + self@.text());
            },
            Stmt::Rule(head, body) => {
                let ghost atoms = atoms_of(body@);
                head.write_to(out);
                out.push(' ');
                out.push(':');
                out.push('-');
                out.push(' ');
                let ghost opened = out@;
                let n = body.len();
                if n > 0 {
                    body[0].write_to(out);
                    assert(atoms[0] == body[0]@);
                    let mut i: usize = 1;
                    assert(atoms.drop_first() =~= atoms.skip(1));
                    while i < n
                        invariant
                            1 <= i <= n,
                            n == body.len(),
                            atoms == atoms_of(body@),
                            out@ + comma_atoms(atoms.skip(i as int)) == opened + join_atoms(atoms),
                        decreases n - i,
                    {
                        let ghost before = out@;
                        out.push(',');
                        out.push(' ');
                        body[i].write_to(out);
                        proof {
                            let rest = atoms.skip(i as int);
                            assert(rest[0] == body[i as int]@);
                            assert(rest.drop_first() =~= atoms.skip(i + 1));
                            assert(out@ =~= before + (seq![',', ' '] + rest[0].text()));
                            assert(before + comma_atoms(rest) =~= out@ + comma_atoms(
                                atoms.skip(i + 1),
                            ));
                        }
                        i += 1;
                    }
                    assert(out@ + Seq::<char>::empty() =~= out@);
                } else {
                    assert(opened + Seq::<char>::empty() =~= opened);
                }
                out.push('.');
                assert(out@ =~= old(out)@ + self@.text());
            },
            Stmt::Query(pred) => {
                pred.write_to(out);
                out.push('?');
                assert(out@ =~= old(out)@ + self@.text());
            },
        }
    }

    /// The canonical text of the statement, without a line end. Only a
    /// well-formed statement has one.
    pub fn render(&self) -> (out: String)
        requires
            self@.wf(),
        ensures
            out@ == self@.text(),
    {
        let mut out = String::new();
        self.write_to(&mut out);
        assert(out@ =~= self@.text());
        out
    }

    /// The line that a sink holds for the statement: its canonical text
    /// and a line feed. Only a well-formed statement has one.
    pub fn render_line(&self) -> (out: String)
        requires
            self@.wf(),
        ensures
            out@ == self@.line(),
    {
        let mut out = String::new();
        self.write_to(&mut out);
        out.push('\n');
        assert(out@ =~= self@.line());
        out
    }
}

} // verus!
