//! The parser as a function of the source text: what each step of parsing does to the term
//! arena, the errors and the comments, stated over the lexemes that `lex_at` classifies.
use crate::ast::{Cbnf, Comment, DocComment, List, Rule, Term};
use crate::rule_map::rule_entries;
use crate::error::{Error, ErrorKind, InvalidLiteral};
use crate::lexer::lex_at;
use crate::span::{BSpan, TSpan};
use crate::text::{byte_offset, span_text};
use crate::token::{DocStyle, LexKind};
use vstd::prelude::*;

verus! {

/// An error with its expected kinds as a sequence.
pub enum ErrorView {
    InvalidLit(InvalidLiteral),
    UnclosedRule,
    UnopenedRule,
    Unterminated,
    Expected(Seq<LexKind>),
}

pub open spec fn view_error(e: Error) -> (BSpan, ErrorView) {
    (e.span, match e.kind {
        ErrorKind::InvalidLit(l) => ErrorView::InvalidLit(l),
        ErrorKind::UnclosedRule => ErrorView::UnclosedRule,
        ErrorKind::UnopenedRule => ErrorView::UnopenedRule,
        ErrorKind::Unterminated => ErrorView::Unterminated,
        ErrorKind::Expected(v) => ErrorView::Expected(v@),
    })
}

pub open spec fn view_errors(es: Seq<Error>) -> Seq<(BSpan, ErrorView)> {
    es.map_values(|e: Error| view_error(e))
}

/// Two errors that expect the same kinds, the second right after the first, make one.
pub open spec fn merges_view(a: (BSpan, ErrorView), b: (BSpan, ErrorView)) -> bool {
    &&& a.1 is Expected
    &&& b.1 is Expected
    &&& a.0.to == b.0.from
    &&& a.1->Expected_0 == b.1->Expected_0
}

/// Records an error, merged into the last one where the two congregate.
pub open spec fn push_error(es: Seq<(BSpan, ErrorView)>, e: (BSpan, ErrorView)) -> Seq<(BSpan, ErrorView)> {
    if es.len() > 0 && merges_view(es.last(), e) {
        es.drop_last().push((BSpan { from: es.last().0.from, to: e.0.to }, es.last().1))
    } else {
        es.push(e)
    }
}

/// What parsing has built so far.
pub struct Progress {
    pub terms: Seq<Term>,
    pub errors: Seq<(BSpan, ErrorView)>,
    pub comments: Seq<Comment>,
    pub docs: Seq<DocComment>,
}

impl Progress {
    pub open spec fn with_terms(self, terms: Seq<Term>) -> Progress {
        Progress { terms, ..self }
    }

    pub open spec fn with_error(self, e: (BSpan, ErrorView)) -> Progress {
        Progress { errors: push_error(self.errors, e), ..self }
    }

    pub open spec fn with_comment(self, style: Option<DocStyle>, span: BSpan) -> Progress {
        match style {
            Some(s) => Progress { docs: self.docs.push(DocComment(s, span)), ..self },
            None => Progress { comments: self.comments.push(Comment(span)), ..self },
        }
    }
}

/// The byte span of the characters `[b, e)` of `t`.
pub open spec fn tspan(t: Seq<char>, b: int, e: int) -> BSpan {
    BSpan { from: byte_offset(t, b) as u32, to: byte_offset(t, e) as u32 }
}

pub open spec fn is_wc(k: LexKind) -> bool {
    k is LineComment || k is BlockComment || k is Whitespace
}

/// Records a comment lexeme; an unterminated block comment is an error too.
pub open spec fn record_wc(p: Progress, k: LexKind, s: BSpan) -> Progress {
    match k {
        LexKind::LineComment { doc_style } => p.with_comment(doc_style, s),
        LexKind::BlockComment { doc_style, terminated } => if terminated {
            p.with_comment(doc_style, s)
        } else {
            p.with_error((s, ErrorView::Unterminated)).with_comment(doc_style, s)
        },
        _ => p,
    }
}

/// Skips whitespace and comments from index `b`, recording the comments; gives where the
/// next other lexeme starts.
pub open spec fn skip(t: Seq<char>, b: int, p: Progress) -> (Progress, int)
    decreases t.len() - b,
{
    let (k, e) = lex_at(t, b);
    if is_wc(k) && b < e <= t.len() {
        skip(t, e, record_wc(p, k, tspan(t, b, e)))
    } else {
        (p, b)
    }
}

/// The kinds that may come next inside a rule body.
pub open spec fn list_kinds() -> Seq<LexKind> {
    seq![LexKind::OpenParen, LexKind::Ident, LexKind::Or, crate::parser::literal_kind(), LexKind::CloseBrace]
}

/// The next identifier from index `b`, with an error for each other lexeme before it; and
/// where parsing goes on.
pub open spec fn until_ident(t: Seq<char>, b: int, p: Progress) -> (Progress, Option<BSpan>, int)
    decreases t.len() - b,
{
    let (p1, s) = skip(t, b, p);
    let (k, e) = lex_at(t, s);
    if k == LexKind::Ident {
        (p1, Some(tspan(t, s, e)), e)
    } else if k == LexKind::Eof || !(b <= s < e <= t.len()) {
        (p1, None, s)
    } else {
        until_ident(t, e, p1.with_error((tspan(t, s, e), ErrorView::Expected(seq![LexKind::Ident]))))
    }
}

/// The opening brace after the rule name `name`, or an error at the name, the lexeme left for
/// what comes next.
pub open spec fn rule_opener(t: Seq<char>, b: int, p: Progress, name: BSpan) -> (Progress, Option<BSpan>, int) {
    let (p1, s) = skip(t, b, p);
    let (k, e) = lex_at(t, s);
    if k == LexKind::OpenBrace {
        (p1, Some(tspan(t, s, e)), e)
    } else {
        (p1.with_error((name, ErrorView::UnopenedRule)), None, s)
    }
}

/// The container `x` closed: its span reaches `to` and its run reaches `len`.
pub open spec fn closed_term(x: Term, to: int, len: int) -> Term {
    match x {
        Term::Group(l) => Term::Group(List {
            span: BSpan { from: l.span.from, to: to as u32 },
            terms: TSpan { from: l.terms.from, to: len as u32 },
        }),
        Term::Or(l) => Term::Or(List {
            span: BSpan { from: l.span.from, to: to as u32 },
            terms: TSpan { from: l.terms.from, to: len as u32 },
        }),
        _ => x,
    }
}

/// Closes the container at index `c` of `ts` at byte offset `to`.
pub open spec fn close_at(ts: Seq<Term>, c: int, to: int) -> Seq<Term> {
    ts.update(c, closed_term(ts[c], to, ts.len() as int))
}

/// The innermost open or lies inside the innermost open group, or no group is open.
pub open spec fn or_closes(groups: Seq<u32>, ors: Seq<u32>) -> bool {
    ors.len() > 0 && !(groups.len() > 0 && ors.last() <= groups.last())
}

/// Closes the innermost open or at `last`, if it is inside the innermost group.
pub open spec fn handle_or(ts: Seq<Term>, groups: Seq<u32>, ors: Seq<u32>, last: int) -> (Seq<Term>, Seq<u32>) {
    if or_closes(groups, ors) {
        (close_at(ts, ors.last() as int, last), ors.drop_last())
    } else {
        (ts, ors)
    }
}

/// Closes every open or inside the innermost group.
pub open spec fn close_ors(ts: Seq<Term>, groups: Seq<u32>, ors: Seq<u32>, last: int) -> (Seq<Term>, Seq<u32>)
    decreases ors.len(),
{
    if or_closes(groups, ors) {
        close_ors(close_at(ts, ors.last() as int, last), groups, ors.drop_last(), last)
    } else {
        (ts, ors)
    }
}

/// Closes the innermost group at a closing parenthesis that ends at `to`, after the ors
/// inside it.
pub open spec fn pop_group(ts: Seq<Term>, groups: Seq<u32>, ors: Seq<u32>, to: int, last: int) -> (Seq<Term>, Seq<u32>, Seq<u32>) {
    let (ts1, ors1) = close_ors(ts, groups, ors, last);
    (close_at(ts1, groups.last() as int, to), groups.drop_last(), ors1)
}

/// At the end of a body, closes what is still open, innermost first: groups at `stop_to`,
/// ors at the end of their last lexeme. Gives the arena, the new end of the content, and
/// the groups closed, innermost first.
pub open spec fn close_open(ts: Seq<Term>, groups: Seq<u32>, ors: Seq<u32>, stop_to: int, last: int, unclosed: Seq<u32>) -> (Seq<Term>, int, Seq<u32>)
    decreases groups.len() + ors.len(),
{
    if groups.len() == 0 && ors.len() == 0 {
        (ts, last, unclosed)
    } else if groups.len() > 0 && (ors.len() == 0 || ors.last() < groups.last()) {
        close_open(close_at(ts, groups.last() as int, stop_to), groups.drop_last(), ors, stop_to, stop_to, unclosed.push(groups.last()))
    } else {
        close_open(close_at(ts, ors.last() as int, last), groups, ors.drop_last(), stop_to, last, unclosed)
    }
}

/// An `Unterminated` error for each unclosed group, outermost first.
pub open spec fn report_unclosed(es: Seq<(BSpan, ErrorView)>, ts: Seq<Term>, unclosed: Seq<u32>) -> Seq<(BSpan, ErrorView)>
    decreases unclosed.len(),
{
    if unclosed.len() == 0 {
        es
    } else {
        report_unclosed(push_error(es, (ts[unclosed.last() as int].spec_span(), ErrorView::Unterminated)), ts, unclosed.drop_last())
    }
}

/// A container of kind `group` (or an or) that opens with span `s` at the end of `ts`.
pub open spec fn opened(ts: Seq<Term>, s: BSpan, group: bool) -> Term {
    let l = List { span: s, terms: TSpan { from: (ts.len() + 1) as u32, to: (ts.len() + 1) as u32 } };
    if group {
        Term::Group(l)
    } else {
        Term::Or(l)
    }
}

/// The body loop from index `b`: the stacks of open groups and ors, and where the content
/// last ended. Gives the state at the closing brace or the end of input, the characters of
/// that lexeme, and whether it is the end of input.
pub open spec fn list_loop(t: Seq<char>, b: int, p: Progress, groups: Seq<u32>, ors: Seq<u32>, last: int) -> (Progress, Seq<u32>, Seq<u32>, int, (int, int), bool)
    decreases t.len() - b,
{
    let (p1, s) = skip(t, b, p);
    let (k, e) = lex_at(t, s);
    let sp = tspan(t, s, e);
    let ts = p1.terms;
    if k == LexKind::CloseBrace {
        (p1, groups, ors, last, (s, e), false)
    } else if k == LexKind::Eof || !(b <= s < e <= t.len()) {
        (p1, groups, ors, last, (s, e), true)
    } else if k == LexKind::OpenParen {
        list_loop(t, e, p1.with_terms(ts.push(opened(ts, sp, true))), groups.push(ts.len() as u32), ors, sp.to as int)
    } else if k == LexKind::CloseParen && groups.len() > 0 {
        let (ts2, g2, o2) = pop_group(ts, groups, ors, sp.to as int, last);
        list_loop(t, e, p1.with_terms(ts2), g2, o2, sp.to as int)
    } else if k == LexKind::Or {
        let (ts2, o2) = handle_or(ts, groups, ors, last);
        list_loop(t, e, p1.with_terms(ts2.push(opened(ts2, sp, false))), groups, o2.push(ts2.len() as u32), sp.to as int)
    } else if k == LexKind::Ident {
        list_loop(t, e, p1.with_terms(ts.push(Term::Ident(sp))), groups, ors, sp.to as int)
    } else if k is Literal && k->kind.spec_is_string() {
        let p2 = if k->kind.spec_terminated() {
            p1
        } else {
            p1.with_error((sp, ErrorView::InvalidLit(InvalidLiteral::Unterminated)))
        };
        list_loop(t, e, p2.with_terms(p2.terms.push(Term::Literal(sp))), groups, ors, sp.to as int)
    } else if k is Literal {
        list_loop(t, e, p1.with_error((sp, ErrorView::InvalidLit(InvalidLiteral::Numeric))), groups, ors, last)
    } else {
        list_loop(t, e, p1.with_error((sp, ErrorView::Expected(list_kinds()))), groups, ors, last)
    }
}

/// A rule body from index `b`, after the opening brace `open` of the rule named `name`:
/// the state after it, where the body ends, its run of the arena, and where parsing goes on.
pub open spec fn list(t: Seq<char>, b: int, p: Progress, name: BSpan, open: BSpan) -> (Progress, u32, TSpan, int) {
    let first = p.terms.len();
    let (p1, groups, ors, last, stop, eof) = list_loop(t, b, p, Seq::empty(), Seq::empty(), open.to as int);
    let stop_to = byte_offset(t, stop.1) as int;
    let (ts2, _, unclosed) = close_open(p1.terms, groups, ors, stop_to, last, Seq::empty());
    let es2 = report_unclosed(p1.errors, ts2, unclosed);
    let es3 = if eof {
        push_error(es2, (BSpan { from: name.from, to: stop_to as u32 }, ErrorView::UnclosedRule))
    } else {
        es2
    };
    (Progress { terms: ts2, errors: es3, ..p1 }, stop_to as u32, TSpan { from: first as u32, to: ts2.len() as u32 }, stop.1)
}

/// The next rule name and its opening brace from index `b`, and where its body starts.
pub open spec fn find_rule(t: Seq<char>, b: int, p: Progress) -> (Progress, Option<(BSpan, BSpan)>, int)
    decreases t.len() - b,
{
    let (p1, id, b1) = until_ident(t, b, p);
    match id {
        None => (p1, None, b1),
        Some(name) => {
            let (p2, op, b2) = rule_opener(t, b1, p1, name);
            match op {
                Some(open) => (p2, Some((name, open)), b2),
                None => if b < b2 <= t.len() {
                    find_rule(t, b2, p2)
                } else {
                    (p2, None, b2)
                },
            }
        },
    }
}

/// The next rule from index `b`, and where parsing goes on after it.
pub open spec fn next_rule(t: Seq<char>, b: int, p: Progress) -> (Progress, Option<Rule>, int) {
    let (p1, found, b1) = find_rule(t, b, p);
    match found {
        None => (p1, None, b1),
        Some((name, open)) => {
            let (p2, close, terms, b2) = list(t, b1, p1, name, open);
            (p2, Some(Rule {
                name,
                expr: Some(List { span: BSpan { from: open.from, to: close }, terms }),
                span: BSpan { from: name.from, to: close },
            }), b2)
        },
    }
}

/// Every rule from index `b` on: the first under each name goes to `named`, with its name's
/// text; the later ones go to `extras`.
pub open spec fn collect(t: Seq<char>, b: int, p: Progress, named: Seq<(Seq<char>, Rule)>, extras: Seq<Rule>) -> (Progress, Seq<(Seq<char>, Rule)>, Seq<Rule>)
    decreases t.len() - b,
{
    let (p1, r, b1) = next_rule(t, b, p);
    match r {
        None => (p1, named, extras),
        Some(rule) => {
            let key = span_text(t, rule.name.from as int, rule.name.to as int);
            let (n2, x2) = if exists|k: int| 0 <= k < named.len() && (#[trigger] named[k]).0 == key {
                (named, extras.push(rule))
            } else {
                (named.push((key, rule)), extras)
            };
            if b < b1 <= t.len() {
                collect(t, b1, p1, n2, x2)
            } else {
                (p1, n2, x2)
            }
        },
    }
}

/// Nothing built yet.
pub open spec fn start() -> Progress {
    Progress { terms: Seq::empty(), errors: Seq::empty(), comments: Seq::empty(), docs: Seq::empty() }
}

/// The parse of the text `t`: what is built, the named rules in order, and the rules whose
/// name came before.
pub open spec fn parse_model(t: Seq<char>) -> (Progress, Seq<(Seq<char>, Rule)>, Seq<Rule>) {
    collect(t, 0, start(), Seq::empty(), Seq::empty())
}

/// `r` is what parsing the text `t` gives.
pub open spec fn parse_of(r: Cbnf, t: Seq<char>) -> bool {
    let (p, named, extras) = parse_model(t);
    &&& r.terms@ == p.terms
    &&& view_errors(r.errors@) == p.errors
    &&& r.comments@ == p.comments
    &&& r.docs@ == p.docs
    &&& rule_entries(r.rules) == named
    &&& r.extras@ == extras
}

/// Parsing the same text twice gives the same rules, terms, errors and comments.
pub proof fn parse_twice_agrees(a: Cbnf, b: Cbnf, t: Seq<char>)
    requires
        parse_of(a, t),
        parse_of(b, t),
    ensures
        a.terms@ == b.terms@,
        view_errors(a.errors@) == view_errors(b.errors@),
        a.comments@ == b.comments@,
        a.docs@ == b.docs@,
        rule_entries(a.rules) == rule_entries(b.rules),
        a.extras@ == b.extras@,
{
}

} // verus!
