//! Parse errors. None is fatal: the parser records them and goes on.
use crate::span::BSpan;
use crate::token::LexKind;
use vstd::prelude::*;

verus! {

/// A parse error and the bytes it covers.
#[derive(Debug, Clone, PartialEq, Eq, PartialOrd, Ord)]
pub struct Error {
    pub span: BSpan,
    pub kind: ErrorKind,
}

/// The classes of parse error.
#[derive(Debug, Clone, PartialEq, Eq, PartialOrd, Ord)]
pub enum ErrorKind {
    /// A literal that a grammar cannot hold.
    InvalidLit(InvalidLiteral),
    /// A rule body that reaches the end of input without its closing brace.
    UnclosedRule,
    /// A rule name that no opening brace follows.
    UnopenedRule,
    /// A group that is not closed.
    Unterminated,
    /// A token that is not one of these kinds.
    Expected(Vec<LexKind>),
}

/// Why a literal is invalid.
#[derive(Debug, Clone, Copy, PartialEq, Eq, Structural, PartialOrd, Ord)]
pub enum InvalidLiteral {
    /// A numeric literal.
    Numeric,
    /// A literal without its closing quote.
    Unterminated,
}

/// The names of `ks`, separated by commas.
pub open spec fn names_joined(ks: Seq<LexKind>) -> Seq<char>
    decreases ks.len(),
{
    if ks.len() == 0 {
        Seq::empty()
    } else if ks.len() == 1 {
        ks[0].spec_name()
    } else {
        names_joined(ks.drop_last()) + ", "@ + ks.last().spec_name()
    }
}

/// The message of an error of kind `kind`.
pub open spec fn spec_message(kind: ErrorKind) -> Seq<char> {
    match kind {
        ErrorKind::InvalidLit(InvalidLiteral::Numeric) => "Numbers not allowed"@,
        ErrorKind::InvalidLit(InvalidLiteral::Unterminated) => "Unterminated terminal found"@,
        ErrorKind::UnclosedRule => "Unclosed rule found"@,
        ErrorKind::UnopenedRule => "Unopened rule found"@,
        ErrorKind::Unterminated => "Group not terminated"@,
        ErrorKind::Expected(acc) => {
            if acc@.len() == 0 {
                "Token not expected"@
            } else {
                "Token not expected, expected one of: [ "@ + names_joined(acc@) + " ]"@
            }
        },
    }
}

/// `b` directly follows `a` and expects the same kinds, so the two make one wider error.
pub open spec fn merges(a: Error, b: Error) -> bool {
    &&& a.kind is Expected
    &&& b.kind is Expected
    &&& a.span.to == b.span.from
    &&& a.kind->Expected_0@ == b.kind->Expected_0@
}

/// Whether two lists of kinds are equal.
fn same_kinds(a: &Vec<LexKind>, b: &Vec<LexKind>) -> (r: bool)
    ensures
        r == (a@ == b@),
{
    if a.len() != b.len() {
        return false;
    }
    let mut i: usize = 0;
    while i < a.len()
        invariant
            a.len() == b.len(),
            i <= a.len(),
            forall|k: int| 0 <= k < i ==> a@[k] == b@[k],
        decreases a.len() - i,
    {
        if a[i] != b[i] {
            return false;
        }
        i += 1;
    }
    assert(a@ =~= b@);
    true
}

impl Error {
    pub fn span(&self) -> (r: BSpan)
        ensures
            r == self.span,
    {
        self.span
    }

    /// The message to show for the error.
    pub fn message(&self) -> (r: String)
        ensures
            r@ == spec_message(self.kind),
    {
        match &self.kind {
            ErrorKind::InvalidLit(InvalidLiteral::Numeric) => String::from_str("Numbers not allowed"),
            ErrorKind::InvalidLit(InvalidLiteral::Unterminated) => String::from_str(
                "Unterminated terminal found",
            ),
            ErrorKind::UnclosedRule => String::from_str("Unclosed rule found"),
            ErrorKind::UnopenedRule => String::from_str("Unopened rule found"),
            ErrorKind::Unterminated => String::from_str("Group not terminated"),
            ErrorKind::Expected(acc) => {
                if acc.len() == 0 {
                    return String::from_str("Token not expected");
                }
                let mut o = String::from_str("Token not expected, expected one of: [ ");
                o.append(acc[0].name());
                let mut i: usize = 1;
                proof {
                    assert(acc@.take(1) =~= seq![acc@[0]]);
                }
                while i < acc.len()
                    invariant
                        1 <= i <= acc.len(),
                        o@ == "Token not expected, expected one of: [ "@ + names_joined(
                            acc@.take(i as int),
                        ),
                    decreases acc.len() - i,
                {
                    o.append(", ");
                    o.append(acc[i].name());
                    proof {
                        assert(acc@.take(i + 1).drop_last() =~= acc@.take(i as int));
                    }
                    i += 1;
                }
                o.append(" ]");
                proof {
                    assert(acc@.take(acc.len() as int) =~= acc@);
                }
                o
            },
        }
    }

    /// Merges `other` into `self` when it directly follows with the same expected kinds;
    /// otherwise hands `other` back.
    pub fn congregate(&mut self, other: Self) -> (r: Option<Self>)
        ensures
            merges(*old(self), other) ==> r is None && final(self).kind == old(self).kind
                && final(self).span == (BSpan { from: old(self).span.from, to: other.span.to }),
            !merges(*old(self), other) ==> r == Some(other) && *final(self) == *old(self),
    {
        let same = match (&self.kind, &other.kind) {
            (ErrorKind::Expected(exp), ErrorKind::Expected(other_exp)) => self.span.to
                == other.span.from && same_kinds(exp, other_exp),
            _ => false,
        };
        if !same {
            return Some(other);
        }
        self.span.to = other.span.to;
        None
    }
}

impl From<(BSpan, ErrorKind)> for Error {
    fn from(value: (BSpan, ErrorKind)) -> (r: Self) {
        Error { span: value.0, kind: value.1 }
    }
}

impl vstd::std_specs::convert::FromSpecImpl<(BSpan, ErrorKind)> for Error {
    open spec fn obeys_from_spec() -> bool {
        true
    }

    open spec fn from_spec(v: (BSpan, ErrorKind)) -> Error {
        Error { span: v.0, kind: v.1 }
    }
}

impl From<(InvalidLiteral, BSpan)> for Error {
    fn from(value: (InvalidLiteral, BSpan)) -> (r: Self) {
        Error { span: value.1, kind: ErrorKind::InvalidLit(value.0) }
    }
}

impl vstd::std_specs::convert::FromSpecImpl<(InvalidLiteral, BSpan)> for Error {
    open spec fn obeys_from_spec() -> bool {
        true
    }

    open spec fn from_spec(v: (InvalidLiteral, BSpan)) -> Error {
        Error { span: v.1, kind: ErrorKind::InvalidLit(v.0) }
    }
}

} // verus!
