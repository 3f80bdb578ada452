//! The parsed data model: rules, lists and the flat term arena.
use crate::error::Error;
use crate::rule_map::{keys_unique, rule_entries};
use crate::span::{BSpan, TSpan};
use indexmap::IndexMap;
use crate::text::char_span;
use crate::token::DocStyle;
use vstd::prelude::*;

verus! {

/// A plain comment.
#[derive(Clone, Copy, Debug, PartialEq, Eq, Structural)]
pub struct Comment(pub BSpan);

impl Comment {
    pub fn span(&self) -> (r: BSpan)
        ensures
            r == self.0,
    {
        self.0
    }
}

/// A doc comment and its style.
#[derive(Clone, Copy, Debug, PartialEq, Eq, Structural)]
pub struct DocComment(pub DocStyle, pub BSpan);

impl DocComment {
    pub fn style(&self) -> (r: DocStyle)
        ensures
            r == self.0,
    {
        self.0
    }

    pub fn span(&self) -> (r: BSpan)
        ensures
            r == self.1,
    {
        self.1
    }
}

/// A named rule and its body.
#[derive(Debug, Default, Clone, Copy, PartialEq, Eq, Structural)]
pub struct Rule {
    pub name: BSpan,
    pub expr: Option<List>,
    /// The span of the whole rule, to its closing brace.
    pub span: BSpan,
}

/// A body of terms: a rule body, one alternative of an or, or the contents of a group.
#[derive(Debug, Default, Clone, Copy, PartialEq, Eq, Structural)]
pub struct List {
    pub span: BSpan,
    pub terms: TSpan,
}

impl List {
    pub fn new(span: BSpan, terms: TSpan) -> (r: Self)
        ensures
            r.span == span,
            r.terms == terms,
    {
        List { span, terms }
    }

    pub fn span(&self) -> (r: BSpan)
        ensures
            r == self.span,
    {
        self.span
    }

    pub fn terms(&self) -> (r: TSpan)
        ensures
            r == self.terms,
    {
        self.terms
    }

    /// The list's terms lie in the arena `t`, and each one's span lies inside the list's.
    pub open spec fn holds(self, t: Seq<Term>) -> bool {
        &&& self.span.wf()
        &&& self.terms.from <= self.terms.to <= t.len()
        &&& forall|j: int|
            self.terms.from <= j < self.terms.to ==> (#[trigger] t[j]).spec_span().within(
                self.span,
            )
    }
}

/// One element of a list.
#[derive(Debug, Clone, Copy, PartialEq, Eq, Structural)]
pub enum Term {
    /// A reference to a rule.
    Ident(BSpan),
    /// A quoted terminal.
    Literal(BSpan),
    /// One alternative of an alternation.
    Or(List),
    /// A parenthesized group.
    Group(List),
}

impl Term {
    pub open spec fn spec_span(self) -> BSpan {
        match self {
            Term::Ident(span) => span,
            Term::Literal(span) => span,
            Term::Or(list) => list.span,
            Term::Group(list) => list.span,
        }
    }

    pub open spec fn spec_terms(self) -> Option<TSpan> {
        match self {
            Term::Ident(_) => None,
            Term::Literal(_) => None,
            Term::Or(list) => Some(list.terms),
            Term::Group(list) => Some(list.terms),
        }
    }

    pub open spec fn is_container(self) -> bool {
        self is Or || self is Group
    }

    /// The list that a container owns.
    pub open spec fn list(self) -> List {
        match self {
            Term::Or(list) => list,
            Term::Group(list) => list,
            _ => List { span: self.spec_span(), terms: TSpan { from: 0, to: 0 } },
        }
    }

    pub fn span(&self) -> (r: BSpan)
        ensures
            r == self.spec_span(),
    {
        match self {
            Term::Literal(span) => *span,
            Term::Ident(span) => *span,
            Term::Or(list) => list.span,
            Term::Group(list) => list.span,
        }
    }

    pub fn terms(&self) -> (r: Option<TSpan>)
        ensures
            r == self.spec_terms(),
    {
        match self {
            Term::Or(list) => Some(list.terms),
            Term::Group(list) => Some(list.terms),
            Term::Literal(_) => None,
            Term::Ident(_) => None,
        }
    }
}

/// The term at index `i` of the arena `t`, if it is a container, owns a run of terms that
/// starts after it, and each of them lies inside the container's span.
pub open spec fn container_ok(t: Seq<Term>, i: int) -> bool {
    t[i].is_container() ==> i < t[i].list().terms.from && t[i].list().holds(t)
}

/// Every term of the arena has a well-formed span, and every container holds its run.
pub open spec fn arena_ok(t: Seq<Term>) -> bool {
    forall|i: int| 0 <= i < t.len() ==> (#[trigger] t[i]).spec_span().wf() && container_ok(t, i)
}

/// Every identifier term of `t` covers whole characters of `text`, at least one.
pub open spec fn idents_on_chars(t: Seq<Term>, text: Seq<char>) -> bool {
    forall|j: int|
        0 <= j < t.len() && (#[trigger] t[j]) is Ident ==> char_span(
            text,
            t[j].spec_span().from as int,
            t[j].spec_span().to as int,
        ) && t[j].spec_span().from < t[j].spec_span().to
}

/// Replacing a term by one that is no identifier keeps `idents_on_chars`.
pub proof fn lemma_idents_update(t: Seq<Term>, text: Seq<char>, c: int, x: Term)
    requires
        idents_on_chars(t, text),
        0 <= c < t.len(),
        !(x is Ident),
    ensures
        idents_on_chars(t.update(c, x), text),
{
    assert forall|j: int| 0 <= j < t.len() && (#[trigger] t.update(c, x)[j]) is Ident implies char_span(
        text,
        t.update(c, x)[j].spec_span().from as int,
        t.update(c, x)[j].spec_span().to as int,
    ) && t.update(c, x)[j].spec_span().from < t.update(c, x)[j].spec_span().to by {
        assert(t.update(c, x)[j] == t[j]);
    }
}

/// Appending a term keeps `idents_on_chars` if the term is no identifier or covers whole
/// characters.
pub proof fn lemma_idents_push(t: Seq<Term>, text: Seq<char>, x: Term)
    requires
        idents_on_chars(t, text),
        x is Ident ==> char_span(text, x.spec_span().from as int, x.spec_span().to as int)
            && x.spec_span().from < x.spec_span().to,
    ensures
        idents_on_chars(t.push(x), text),
{
    assert forall|j: int| 0 <= j < t.len() + 1 && (#[trigger] t.push(x)[j]) is Ident implies char_span(
        text,
        t.push(x)[j].spec_span().from as int,
        t.push(x)[j].spec_span().to as int,
    ) && t.push(x)[j].spec_span().from < t.push(x)[j].spec_span().to by {
        if j < t.len() {
            assert(t.push(x)[j] == t[j]);
        }
    }
}

impl Rule {
    /// The rule's span covers its name and its body.
    pub open spec fn covers(self) -> bool {
        &&& self.name.wf()
        &&& self.name.within(self.span)
        &&& self.expr matches Some(list) ==> list.span.within(self.span)
    }

    /// The rule covers its name and body, and its body holds its run of the arena `t`.
    pub open spec fn ok_in(self, t: Seq<Term>) -> bool {
        &&& self.covers()
        &&& self.expr matches Some(list) ==> list.holds(t)
    }
}


/// A rule whose body holds its run of `t` still does in any longer arena that starts with `t`.
pub proof fn lemma_ok_in_extend(r: Rule, t: Seq<Term>, t2: Seq<Term>)
    requires
        r.ok_in(t),
        t.len() <= t2.len(),
        t2.take(t.len() as int) == t,
    ensures
        r.ok_in(t2),
{
    if r.expr is Some {
        let l = r.expr->0;
        assert forall|j: int| l.terms.from <= j < l.terms.to implies (#[trigger] t2[j]).spec_span().within(
            l.span,
        ) by {
            assert(t2.take(t.len() as int)[j] == t2[j]);
        }
    }
}

/// A parsed grammar: the rules by name in order of first appearance, the rules whose name
/// came again, the comments, the errors, and the one term arena that every rule body indexes.
#[derive(Default, Debug)]
pub struct Cbnf {
    pub rules: IndexMap<String, Rule>,
    pub extras: Vec<Rule>,
    pub comments: Vec<Comment>,
    pub docs: Vec<DocComment>,
    pub errors: Vec<Error>,
    pub terms: Vec<Term>,
}

impl Cbnf {
    /// The arena holds the runs of its containers; each rule has a body, covers its name
    /// and body, and its body holds its run; no two named rules share a name.
    pub open spec fn wf(&self) -> bool {
        &&& arena_ok(self.terms@)
        &&& keys_unique(rule_entries(self.rules))
        &&& forall|i: int|
            0 <= i < rule_entries(self.rules).len() ==> (#[trigger] rule_entries(
                self.rules,
            )[i]).1.ok_in(self.terms@) && rule_entries(self.rules)[i].1.expr is Some
        &&& forall|i: int|
            0 <= i < self.extras@.len() ==> (#[trigger] self.extras@[i]).ok_in(self.terms@)
                && self.extras@[i].expr is Some
    }

    /// `l` is one of the lists of the grammar: a rule body or the list of a container.
    pub open spec fn has_list(&self, l: List) -> bool {
        ||| exists|i: int|
            0 <= i < rule_entries(self.rules).len() && (#[trigger] rule_entries(
                self.rules,
            )[i]).1.expr == Some(l)
        ||| exists|i: int| 0 <= i < self.extras@.len() && (#[trigger] self.extras@[i]).expr == Some(l)
        ||| exists|i: int|
            0 <= i < self.terms@.len() && (#[trigger] self.terms@[i]).is_container()
                && self.terms@[i].list() == l
    }

    pub fn rules(&self) -> (r: &IndexMap<String, Rule>)
        ensures
            r == &self.rules,
    {
        &self.rules
    }

    pub fn comments(&self) -> (r: &[Comment])
        ensures
            r@ == self.comments@,
    {
        self.comments.as_slice()
    }

    pub fn docs(&self) -> (r: &[DocComment])
        ensures
            r@ == self.docs@,
    {
        self.docs.as_slice()
    }

    pub fn errors(&self) -> (r: &[Error])
        ensures
            r@ == self.errors@,
    {
        self.errors.as_slice()
    }

    pub fn terms(&self) -> (r: &[Term])
        ensures
            r@ == self.terms@,
    {
        self.terms.as_slice()
    }

    /// The terms of the run `span`.
    pub fn terms_at(&self, span: TSpan) -> (r: &[Term])
        requires
            span.from <= span.to <= self.terms@.len(),
        ensures
            r@ == self.terms@.subrange(span.from as int, span.to as int),
    {
        vstd::slice::slice_subrange(self.terms.as_slice(), span.from as usize, span.to as usize)
    }
}

/// Every parsed rule's span contains its name and its body's span.
pub proof fn parsed_rule_covers(c: Cbnf, r: Rule)
    requires
        c.wf(),
        (exists|i: int| 0 <= i < rule_entries(c.rules).len() && (#[trigger] rule_entries(c.rules)[i]).1 == r)
            || (exists|i: int| 0 <= i < c.extras@.len() && (#[trigger] c.extras@[i]) == r),
    ensures
        r.name.within(r.span),
        r.expr matches Some(l) ==> l.span.within(r.span),
{
}

/// Every term of a list lies inside the list's span.
pub proof fn list_terms_within(c: Cbnf, l: List, j: int)
    requires
        c.wf(),
        c.has_list(l),
        l.terms.from <= j < l.terms.to,
    ensures
        0 <= j < c.terms@.len(),
        c.terms@[j].spec_span().within(l.span),
{
    if exists|i: int| 0 <= i < rule_entries(c.rules).len() && (#[trigger] rule_entries(c.rules)[i]).1.expr == Some(l) {
        let i = choose|i: int| 0 <= i < rule_entries(c.rules).len() && (#[trigger] rule_entries(c.rules)[i]).1.expr == Some(l);
        assert(rule_entries(c.rules)[i].1.ok_in(c.terms@));
    } else if exists|i: int| 0 <= i < c.extras@.len() && (#[trigger] c.extras@[i]).expr == Some(l) {
        let i = choose|i: int| 0 <= i < c.extras@.len() && (#[trigger] c.extras@[i]).expr == Some(l);
        assert(c.extras@[i].ok_in(c.terms@));
    } else {
        let i = choose|i: int| 0 <= i < c.terms@.len() && (#[trigger] c.terms@[i]).is_container() && c.terms@[i].list() == l;
        assert(container_ok(c.terms@, i));
    }
}

/// A group or or at arena index `i` owns a run `[a, b)` with `i < a`, and every term of the
/// run lies inside the container's span.
pub proof fn container_run_within(c: Cbnf, i: int, j: int)
    requires
        c.wf(),
        0 <= i < c.terms@.len(),
        c.terms@[i].is_container(),
        c.terms@[i].list().terms.from <= j < c.terms@[i].list().terms.to,
    ensures
        i < c.terms@[i].list().terms.from,
        i < j < c.terms@.len(),
        c.terms@[j].spec_span().within(c.terms@[i].spec_span()),
{
    assert(container_ok(c.terms@, i));
}

} // verus!
