//! The characters of the notation: layout, punctuation, identifier
//! characters, and the escapes used inside quoted literals.

use vstd::prelude::*;
use vstd::std_specs::iter::IteratorSpec;
use vstd::string::group_string_axioms;

verus! {

/// `String::push` of the standard library: the string afterwards is the
/// string before with `c` appended as its last character.
pub assume_specification[ String::push ](s: &mut String, c: char)
    ensures
        final(s)@ == old(s)@.push(c),
;

/// Layout that may separate tokens: space, tab, line feed, form feed and
/// carriage return.
pub open spec fn spec_is_whitespace(c: char) -> bool {
    c == ' ' || c == '\t' || c == '\n' || c == '\u{c}' || c == '\r'
}

#[verifier::when_used_as_spec(spec_is_whitespace)]
pub fn is_whitespace(c: char) -> (b: bool)
    ensures
        b == spec_is_whitespace(c),
{
    c == ' ' || c == '\t' || c == '\n' || c == '\u{c}' || c == '\r'
}

/// Characters with a meaning of their own in the grammar wherever they
/// stand outside a literal: they end a name or a variable.
pub open spec fn spec_is_structural(c: char) -> bool {
    c == '(' || c == ')' || c == ',' || c == '.' || c == '?'
}

#[verifier::when_used_as_spec(spec_is_structural)]
pub fn is_structural(c: char) -> (b: bool)
    ensures
        b == spec_is_structural(c),
{
    c == '(' || c == ')' || c == ',' || c == '.' || c == '?'
}

/// Characters that names and variables are made of: anything that is
/// neither layout nor structural. A colon and a hyphen are among them, but
/// not one after the other: see [`arrow_at`].
pub open spec fn spec_is_ident_char(c: char) -> bool {
    !is_whitespace(c) && !is_structural(c)
}

#[verifier::when_used_as_spec(spec_is_ident_char)]
pub fn is_ident_char(c: char) -> (b: bool)
    ensures
        b == spec_is_ident_char(c),
{
    !is_whitespace(c) && !is_structural(c)
}

/// The mark `:-` stands at position `i` of `t`.
pub open spec fn arrow_at(t: Seq<char>, i: int) -> bool {
    0 <= i && i + 1 < t.len() && t[i] == ':' && t[i + 1] == '-'
}

/// Position `i` of `t` holds a character that a name or a variable goes
/// on with: an identifier character at which no `:-` starts.
pub open spec fn ident_at(t: Seq<char>, i: int) -> bool {
    0 <= i < t.len() && is_ident_char(t[i]) && !arrow_at(t, i)
}

/// A name or a variable: one or more identifier characters, without the
/// mark `:-` among them.
pub open spec fn is_identifier(s: Seq<char>) -> bool {
    s.len() > 0 && forall|i: int| 0 <= i < s.len() ==> #[trigger] ident_at(s, i)
}

/// The letter that follows the backslash when `c` is written inside a
/// literal, for the seven characters that are written escaped.
pub open spec fn spec_escape_letter(c: char) -> Option<char> {
    if c == '\'' {
        Some('\'')
    } else if c == '\\' {
        Some('\\')
    } else if c == '\u{8}' {
        Some('b')
    } else if c == '\t' {
        Some('t')
    } else if c == '\n' {
        Some('n')
    } else if c == '\u{c}' {
        Some('f')
    } else if c == '\r' {
        Some('r')
    } else {
        None
    }
}

#[verifier::when_used_as_spec(spec_escape_letter)]
pub fn escape_letter(c: char) -> (r: Option<char>)
    ensures
        r == spec_escape_letter(c),
{
    if c == '\'' {
        Some('\'')
    } else if c == '\\' {
        Some('\\')
    } else if c == '\u{8}' {
        Some('b')
    } else if c == '\t' {
        Some('t')
    } else if c == '\n' {
        Some('n')
    } else if c == '\u{c}' {
        Some('f')
    } else if c == '\r' {
        Some('r')
    } else {
        None
    }
}

/// The character that a backslash followed by `letter` stands for; `None`
/// when the pair is no escape.
pub open spec fn spec_unescape_letter(letter: char) -> Option<char> {
    if letter == '\'' {
        Some('\'')
    } else if letter == '\\' {
        Some('\\')
    } else if letter == 'b' {
        Some('\u{8}')
    } else if letter == 't' {
        Some('\t')
    } else if letter == 'n' {
        Some('\n')
    } else if letter == 'f' {
        Some('\u{c}')
    } else if letter == 'r' {
        Some('\r')
    } else {
        None
    }
}

#[verifier::when_used_as_spec(spec_unescape_letter)]
pub fn unescape_letter(letter: char) -> (r: Option<char>)
    ensures
        r == spec_unescape_letter(letter),
{
    if letter == '\'' {
        Some('\'')
    } else if letter == '\\' {
        Some('\\')
    } else if letter == 'b' {
        Some('\u{8}')
    } else if letter == 't' {
        Some('\t')
    } else if letter == 'n' {
        Some('\n')
    } else if letter == 'f' {
        Some('\u{c}')
    } else if letter == 'r' {
        Some('\r')
    } else {
        None
    }
}

/// How one character of a literal's payload is written between the quotes.
pub open spec fn escaped_char(c: char) -> Seq<char> {
    match escape_letter(c) {
        Some(letter) => seq!['\\', letter],
        None => seq![c],
    }
}

/// How a literal's payload is written between the quotes.
pub open spec fn escaped(s: Seq<char>) -> Seq<char>
    decreases s.len(),
{
    if s.len() == 0 {
        Seq::empty()
    } else {
        escaped_char(s[0]) + escaped(s.drop_first())
    }
}

/// The two maps between characters and escape letters undo each other.
pub proof fn lemma_escape_letters_inverse(c: char)
    ensures
        escape_letter(c) matches Some(letter) ==> unescape_letter(letter) == Some(c),
        unescape_letter(c) matches Some(d) ==> escape_letter(d) == Some(c),
{
}

/// The characters of `text`, in order.
pub fn chars_of(text: &str) -> (v: Vec<char>)
    ensures
        v@ == text@,
{
    broadcast use group_string_axioms;

    let mut v: Vec<char> = Vec::new();
    let mut it = text.chars();
    loop
        invariant_except_break
            v@ + it.remaining() == text@,
        ensures
            v@ == text@,
        decreases text@.len() - v@.len(),
    {
        match it.next() {
            Some(c) => {
                v.push(c);
            },
            None => {
                break ;
            },
        }
    }
    v
}

/// Tells whether `text` is a name or a variable: not empty, made of
/// identifier characters only, and without the mark `:-`.
pub fn valid_identifier(text: &str) -> (b: bool)
    ensures
        b == is_identifier(text@),
{
    broadcast use group_string_axioms;

    let mut it = text.chars();
    let ghost mut seen: int = 0;
    let mut empty = true;
    let mut after_colon = false;
    loop
        invariant_except_break
            0 <= seen <= text@.len(),
            it.remaining() == text@.skip(seen),
            empty == (seen == 0),
            after_colon == (seen > 0 && text@[seen - 1] == ':'),
            forall|i: int| 0 <= i < seen ==> is_ident_char(#[trigger] text@[i]),
            forall|i: int| 0 <= i < seen - 1 ==> !#[trigger] arrow_at(text@, i),
        ensures
            empty == (text@.len() == 0),
            !empty ==> is_identifier(text@),
        decreases text@.len() - seen,
    {
        match it.next() {
            Some(c) => {
                assert(text@[seen] == c);
                if !is_ident_char(c) {
                    assert(!ident_at(text@, seen));
                    return false;
                }
                if after_colon && c == '-' {
                    assert(!ident_at(text@, seen - 1));
                    return false;
                }
                proof {
                    assert(text@.skip(seen).drop_first() =~= text@.skip(seen + 1));
                    seen = seen + 1;
                }
                empty = false;
                after_colon = c == ':';
            },
            None => {
                assert forall|i: int| 0 <= i < text@.len() implies #[trigger] ident_at(
                    text@,
                    i,
                ) by {
                    assert(is_ident_char(text@[i]));
                    if i < seen - 1 {
                        assert(!arrow_at(text@, i));
                    }
                }
                break ;
            },
        }
    }
    !empty
}

/// Appends to `out` the payload `text` as it is written between the quotes
/// of a literal.
pub fn escape_into(out: &mut String, text: &str)
    ensures
        final(out)@ == old(out)@ + escaped(text@),
{
    broadcast use group_string_axioms;

    let mut it = text.chars();
    let ghost mut seen: int = 0;
    assert(text@.skip(0) =~= text@);
    loop
        invariant_except_break
            0 <= seen <= text@.len(),
            it.remaining() == text@.skip(seen),
            out@ + escaped(text@.skip(seen)) == old(out)@ + escaped(text@),
        ensures
            out@ == old(out)@ + escaped(text@),
        decreases text@.len() - seen,
    {
        let ghost before = out@;
        match it.next() {
            Some(c) => {
                match escape_letter(c) {
                    Some(letter) => {
                        out.push('\\');
                        out.push(letter);
                    },
                    None => {
                        out.push(c);
                    },
                }
                proof {
                    let rest = text@.skip(seen);
                    assert(rest.drop_first() =~= text@.skip(seen + 1));
                    assert(out@ =~= before + escaped_char(c));
                    assert(before + escaped(rest) =~= out@ + escaped(text@.skip(seen + 1)));
                    seen = seen + 1;
                }
            },
            None => {
                assert(out@ + Seq::<char>::empty() =~= out@);
                break ;
            },
        }
    }
}

/// The payload `text` as it is written between the quotes of a literal.
pub fn escape(text: &str) -> (out: String)
    ensures
        out@ == escaped(text@),
{
    let mut out = String::new();
    escape_into(&mut out, text);
    assert(Seq::<char>::empty() + escaped(text@) =~= escaped(text@));
    out
}

} // verus!
