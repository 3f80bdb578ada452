//! The parser: rules, and one flat arena of terms whose groups and alternatives own
//! contiguous runs of it.
use crate::ast::{arena_ok, container_ok, idents_on_chars, lemma_idents_push, lemma_idents_update, lemma_ok_in_extend, Cbnf, Comment, DocComment, List, Rule, Term};
use crate::rule_map::{keys_unique, rule_entries, rules_index_of, rules_insert, rules_new};
use crate::text::span_text;
use crate::error::{merges, Error, ErrorKind, InvalidLiteral};
use crate::lexer::Cursor;
use crate::span::{BSpan, TSpan};
use crate::text::{byte_len, byte_offset, char_span, lemma_offset_mono, lemma_offset_strict};
use crate::token::{Base, DocStyle, LexKind, Lexeme, LiteralKind};
use crate::model::{is_wc, record_wc, skip, tspan, view_error, view_errors, push_error, ErrorView, Progress};
use crate::lexer::lex_at;
use crate::util::AsBSpan;
use vstd::prelude::*;

verus! {

/// The kinds that may come next inside a rule body.
pub fn list_expected() -> (r: Vec<LexKind>)
    ensures
        r@ == seq![
            LexKind::OpenParen,
            LexKind::Ident,
            LexKind::Or,
            literal_kind(),
            LexKind::CloseBrace,
        ],
{
    vec![LexKind::OpenParen, LexKind::Ident, LexKind::Or, literal(), LexKind::CloseBrace]
}

/// The kinds that may start a rule.
pub fn rule_expected() -> (r: Vec<LexKind>)
    ensures
        r@ == seq![LexKind::Ident],
{
    vec![LexKind::Ident]
}

/// The kind that stands for any literal in an expected set.
pub open spec fn literal_kind() -> LexKind {
    LexKind::Literal {
        kind: LiteralKind::Int { base: Base::Binary, empty_int: false },
        suffix_start: 0,
    }
}

fn literal() -> (r: LexKind)
    ensures
        r == literal_kind(),
{
    LexKind::Literal {
        kind: LiteralKind::Int { base: Base::Binary, empty_int: false },
        suffix_start: 0,
    }
}

/// The stack `s` of open containers: sorted, inside the arena from `first` on, each a group
/// (or an or) whose run is still the empty one right after it.
pub open spec fn opens(t: Seq<Term>, first: int, s: Seq<u32>, group: bool) -> bool {
    &&& forall|p: int, q: int| 0 <= p < q < s.len() ==> s[p] < s[q]
    &&& forall|p: int|
        #![trigger s[p]]
        0 <= p < s.len() ==> {
            let k = s[p] as int;
            &&& first <= k < t.len()
            &&& if group {
                t[k] is Group
            } else {
                t[k] is Or
            }
            &&& t[k].list().terms == (TSpan { from: (k + 1) as u32, to: (k + 1) as u32 })
        }
}

/// No container on the stack `s` falls inside the run `(i, to)`.
pub open spec fn apart(s: Seq<u32>, i: int, to: int) -> bool {
    forall|p: int| 0 <= p < s.len() ==> s[p] <= i || s[p] >= to
}

/// The state of the arena while a rule body from arena index `first` is built: containers
/// that are closed hold their runs, open ones sit on the two stacks, spans start in order at
/// or after `open` and end at or before `last_end`.
pub open spec fn building(
    t: Seq<Term>,
    first: int,
    groups: Seq<u32>,
    ors: Seq<u32>,
    open: int,
    last_end: int,
) -> bool {
    &&& 0 <= first <= t.len() <= last_end <= u32::MAX
    &&& 0 <= open <= last_end
    &&& opens(t, first, groups, true)
    &&& opens(t, first, ors, false)
    &&& forall|i: int|
        0 <= i < first ==> (#[trigger] t[i]).spec_span().wf() && container_ok(t, i) && (
        t[i].is_container() ==> t[i].list().terms.to <= first)
    &&& forall|j: int|
        first <= j < t.len() ==> open <= (#[trigger] t[j]).spec_span().from <= t[j].spec_span().to
            <= last_end
    &&& forall|i: int, j: int|
        first <= i <= j < t.len() ==> (#[trigger] t[i]).spec_span().from <= (
        #[trigger] t[j]).spec_span().from
    &&& forall|i: int|
        first <= i < t.len() ==> container_ok(t, i) && ((#[trigger] t[i]).is_container() ==> apart(
            groups,
            i,
            t[i].list().terms.to as int,
        ) && apart(ors, i, t[i].list().terms.to as int))
}

/// `x` as an open container: its run empty, right after index `k`.
pub open spec fn fresh_open(x: Term, k: int) -> bool {
    x.is_container() && x.list().terms == (TSpan { from: (k + 1) as u32, to: (k + 1) as u32 })
}

/// Pushing a term that spans `[f, e)`, after everything so far, keeps the arena building.
proof fn lemma_push(
    t: Seq<Term>,
    first: int,
    groups: Seq<u32>,
    ors: Seq<u32>,
    open: int,
    last_end: int,
    x: Term,
)
    requires
        building(t, first, groups, ors, open, last_end),
        last_end <= x.spec_span().from < x.spec_span().to <= u32::MAX,
        x.is_container() ==> fresh_open(x, t.len() as int),
    ensures
        x is Group ==> building(
            t.push(x),
            first,
            groups.push(t.len() as u32),
            ors,
            open,
            x.spec_span().to as int,
        ),
        x is Or ==> building(
            t.push(x),
            first,
            groups,
            ors.push(t.len() as u32),
            open,
            x.spec_span().to as int,
        ),
        !x.is_container() ==> building(t.push(x), first, groups, ors, open, x.spec_span().to as int),
{
    let n = t.len() as int;
    let t2 = t.push(x);
    let e = x.spec_span().to as int;
    assert(forall|j: int| 0 <= j < n ==> t2[j] == t[j]);
    assert forall|i: int| 0 <= i < first implies (#[trigger] t2[i]).spec_span().wf() && container_ok(
        t2,
        i,
    ) && (t2[i].is_container() ==> t2[i].list().terms.to <= first) by {
        if t2[i].is_container() {
            let l = t2[i].list();
            assert forall|j: int| l.terms.from <= j < l.terms.to implies (
            #[trigger] t2[j]).spec_span().within(l.span) by {
                assert(t2[j] == t[j]);
            }
        }
    }
    assert forall|i: int, j: int| first <= i <= j < t2.len() implies (
    #[trigger] t2[i]).spec_span().from <= (#[trigger] t2[j]).spec_span().from by {
        if j == n {
            if i < n {
                assert(t[i].spec_span().from <= t[i].spec_span().to);
            }
        }
    }
    let g2 = if x is Group {
        groups.push(n as u32)
    } else {
        groups
    };
    let o2 = if x is Or {
        ors.push(n as u32)
    } else {
        ors
    };
    assert forall|i: int| first <= i < t2.len() implies container_ok(t2, i) && ((
    #[trigger] t2[i]).is_container() ==> apart(g2, i, t2[i].list().terms.to as int) && apart(
        o2,
        i,
        t2[i].list().terms.to as int,
    )) by {
        if i < n {
            if t2[i].is_container() {
                let l = t2[i].list();
                assert forall|j: int| l.terms.from <= j < l.terms.to implies (
                #[trigger] t2[j]).spec_span().within(l.span) by {
                    assert(t2[j] == t[j]);
                }
                assert(apart(g2, i, l.terms.to as int)) by {
                    assert forall|p: int| 0 <= p < g2.len() implies g2[p] <= i || g2[p] >= l.terms.to by {
                        if p < groups.len() {
                            assert(g2[p] == groups[p]);
                        }
                    }
                }
                assert(apart(o2, i, l.terms.to as int)) by {
                    assert forall|p: int| 0 <= p < o2.len() implies o2[p] <= i || o2[p] >= l.terms.to by {
                        if p < ors.len() {
                            assert(o2[p] == ors[p]);
                        }
                    }
                }
            }
        } else {
            if t2[i].is_container() {
                assert forall|p: int| 0 <= p < g2.len() implies g2[p] <= i || g2[p] >= t2[i].list().terms.to by {
                    if p < groups.len() {
                        assert(g2[p] == groups[p]);
                    }
                }
                assert forall|p: int| 0 <= p < o2.len() implies o2[p] <= i || o2[p] >= t2[i].list().terms.to by {
                    if p < ors.len() {
                        assert(o2[p] == ors[p]);
                    }
                }
            }
        }
    }
    assert(opens(t2, first, g2, true)) by {
        assert forall|p: int| #![trigger g2[p]] 0 <= p < g2.len() implies {
            let k = g2[p] as int;
            &&& first <= k < t2.len()
            &&& t2[k] is Group
            &&& t2[k].list().terms == (TSpan { from: (k + 1) as u32, to: (k + 1) as u32 })
        } by {
            if p < groups.len() {
                assert(g2[p] == groups[p]);
            }
        }
        assert forall|p: int, q: int| 0 <= p < q < g2.len() implies g2[p] < g2[q] by {
            if q < groups.len() {
                assert(g2[p] == groups[p] && g2[q] == groups[q]);
            } else {
                assert(g2[p] == groups[p]);
            }
        }
    }
    assert(opens(t2, first, o2, false)) by {
        assert forall|p: int| #![trigger o2[p]] 0 <= p < o2.len() implies {
            let k = o2[p] as int;
            &&& first <= k < t2.len()
            &&& t2[k] is Or
            &&& t2[k].list().terms == (TSpan { from: (k + 1) as u32, to: (k + 1) as u32 })
        } by {
            if p < ors.len() {
                assert(o2[p] == ors[p]);
            }
        }
        assert forall|p: int, q: int| 0 <= p < q < o2.len() implies o2[p] < o2[q] by {
            if q < ors.len() {
                assert(o2[p] == ors[p] && o2[q] == ors[q]);
            } else {
                assert(o2[p] == ors[p]);
            }
        }
    }
}

/// `x` is the container `c` of `t` closed: its run reaches the end of the arena and its span
/// reaches `to`.
pub open spec fn closed_as(t: Seq<Term>, c: int, x: Term, to: int) -> bool {
    &&& (t[c] is Group ==> x is Group)
    &&& (t[c] is Or ==> x is Or)
    &&& x.list().terms == (TSpan { from: t[c].list().terms.from, to: t.len() as u32 })
    &&& x.list().span == (BSpan { from: t[c].spec_span().from, to: to as u32 })
}

/// Closing the innermost open container keeps the arena building.
proof fn lemma_close(
    t: Seq<Term>,
    first: int,
    groups: Seq<u32>,
    ors: Seq<u32>,
    open: int,
    last_end: int,
    group: bool,
    x: Term,
    to: int,
)
    requires
        building(t, first, groups, ors, open, last_end),
        group ==> groups.len() > 0 && (ors.len() > 0 ==> ors.last() < groups.last()),
        !group ==> ors.len() > 0 && (groups.len() > 0 ==> groups.last() < ors.last()),
        last_end <= to <= u32::MAX,
        closed_as(t, (if group { groups.last() } else { ors.last() }) as int, x, to),
    ensures
        group ==> building(
            t.update(groups.last() as int, x),
            first,
            groups.drop_last(),
            ors,
            open,
            to,
        ),
        !group ==> building(
            t.update(ors.last() as int, x),
            first,
            groups,
            ors.drop_last(),
            open,
            to,
        ),
{
    let c = (if group {
        groups.last()
    } else {
        ors.last()
    }) as int;
    let t2 = t.update(c, x);
    let g2 = if group {
        groups.drop_last()
    } else {
        groups
    };
    let o2 = if group {
        ors
    } else {
        ors.drop_last()
    };
    let s = if group {
        groups
    } else {
        ors
    };
    assert(s[s.len() - 1] == c);
    assert(first <= c < t.len());
    // Every container still open lies before `c`.
    assert forall|p: int| 0 <= p < groups.len() implies groups[p] <= c by {
        if groups.len() > 0 {
            assert(groups[p] <= groups[groups.len() - 1]);
        }
    }
    assert forall|p: int| 0 <= p < ors.len() implies ors[p] <= c by {
        if ors.len() > 0 {
            assert(ors[p] <= ors[ors.len() - 1]);
        }
    }
    assert forall|i: int| 0 <= i < first implies (#[trigger] t2[i]).spec_span().wf() && container_ok(
        t2,
        i,
    ) && (t2[i].is_container() ==> t2[i].list().terms.to <= first) by {
        assert(t2[i] == t[i]);
        if t2[i].is_container() {
            let l = t2[i].list();
            assert forall|j: int| l.terms.from <= j < l.terms.to implies (
            #[trigger] t2[j]).spec_span().within(l.span) by {
                assert(t2[j] == t[j]);
            }
        }
    }
    assert forall|j: int| first <= j < t2.len() implies open <= (#[trigger] t2[j]).spec_span().from
        <= t2[j].spec_span().to <= to by {
        if j != c {
            assert(t2[j] == t[j]);
        }
    }
    assert forall|i: int, j: int| first <= i <= j < t2.len() implies (
    #[trigger] t2[i]).spec_span().from <= (#[trigger] t2[j]).spec_span().from by {
        assert(t[i].spec_span().from <= t[j].spec_span().from);
    }
    assert forall|i: int| first <= i < t2.len() implies container_ok(t2, i) && ((
    #[trigger] t2[i]).is_container() ==> apart(g2, i, t2[i].list().terms.to as int) && apart(
        o2,
        i,
        t2[i].list().terms.to as int,
    )) by {
        if i == c {
            let l = x.list();
            assert forall|j: int| l.terms.from <= j < l.terms.to implies (
            #[trigger] t2[j]).spec_span().within(l.span) by {
                assert(t2[j] == t[j]);
                assert(t[c].spec_span().from <= t[j].spec_span().from);
            }
            assert forall|p: int| 0 <= p < g2.len() implies g2[p] <= i || g2[p] >= l.terms.to by {
                assert(g2[p] == groups[p]);
                if group {
                    assert(groups[p] < groups[groups.len() - 1]);
                }
            }
            assert forall|p: int| 0 <= p < o2.len() implies o2[p] <= i || o2[p] >= l.terms.to by {
                assert(o2[p] == ors[p]);
                if !group {
                    assert(ors[p] < ors[ors.len() - 1]);
                }
            }
        } else {
            assert(t2[i] == t[i]);
            if t2[i].is_container() {
                let l = t2[i].list();
                // `c` was open, so it is not inside the run of `i`.
                assert(c <= i || c >= l.terms.to) by {
                    assert(apart(s, i, l.terms.to as int));
                    assert(s[s.len() - 1] == c);
                }
                assert forall|j: int| l.terms.from <= j < l.terms.to implies (
                #[trigger] t2[j]).spec_span().within(l.span) by {
                    assert(t2[j] == t[j]);
                }
                assert forall|p: int| 0 <= p < g2.len() implies g2[p] <= i || g2[p] >= l.terms.to by {
                    assert(g2[p] == groups[p]);
                }
                assert forall|p: int| 0 <= p < o2.len() implies o2[p] <= i || o2[p] >= l.terms.to by {
                    assert(o2[p] == ors[p]);
                }
            }
        }
    }
    assert(opens(t2, first, g2, true)) by {
        assert forall|p: int| #![trigger g2[p]] 0 <= p < g2.len() implies {
            let k = g2[p] as int;
            &&& first <= k < t2.len()
            &&& t2[k] is Group
            &&& t2[k].list().terms == (TSpan { from: (k + 1) as u32, to: (k + 1) as u32 })
        } by {
            assert(g2[p] == groups[p]);
            if group {
                assert(groups[p] < groups[groups.len() - 1]);
            } else {
                assert(t[c] is Or);
            }
        }
    }
    assert(opens(t2, first, o2, false)) by {
        assert forall|p: int| #![trigger o2[p]] 0 <= p < o2.len() implies {
            let k = o2[p] as int;
            &&& first <= k < t2.len()
            &&& t2[k] is Or
            &&& t2[k].list().terms == (TSpan { from: (k + 1) as u32, to: (k + 1) as u32 })
        } by {
            assert(o2[p] == ors[p]);
            if !group {
                assert(ors[p] < ors[ors.len() - 1]);
            } else {
                assert(t[c] is Group);
            }
        }
    }
}

/// A finished rule body: the arena holds its runs, and every term of the body lies inside
/// `[open, last_end]`.
proof fn lemma_finish(
    t: Seq<Term>,
    first: int,
    groups: Seq<u32>,
    ors: Seq<u32>,
    open: int,
    last_end: int,
)
    requires
        building(t, first, groups, ors, open, last_end),
    ensures
        arena_ok(t),
        forall|j: int|
            first <= j < t.len() ==> (#[trigger] t[j]).spec_span().within(
                BSpan { from: open as u32, to: last_end as u32 },
            ),
{
    assert forall|i: int| 0 <= i < t.len() implies (#[trigger] t[i]).spec_span().wf()
        && container_ok(t, i) by {
        if i >= first {
            assert(t[i].spec_span().from <= t[i].spec_span().to);
        }
    }
}

/// How recording an error shows in the errors' view.
proof fn lemma_view_errors(e: Seq<Error>, err: Error)
    ensures
        view_errors(e.push(err)) == view_errors(e).push(view_error(err)),
        e.len() > 0 ==> view_errors(e.drop_last()) == view_errors(e).drop_last(),
        e.len() > 0 ==> view_errors(e).last() == view_error(e.last()),
        e.len() > 0 ==> (merges(e.last(), err) <==> crate::model::merges_view(view_error(e.last()), view_error(err))),
        e.len() > 0 && merges(e.last(), err) ==> view_errors(
            e.drop_last().push(
                Error { span: BSpan { from: e.last().span.from, to: err.span.to }, kind: e.last().kind },
            ),
        ) == push_error(view_errors(e), view_error(err)),
        !(e.len() > 0 && merges(e.last(), err)) ==> view_errors(e.push(err)) == push_error(
            view_errors(e),
            view_error(err),
        ),
{
    assert(view_errors(e.push(err)) =~= view_errors(e).push(view_error(err)));
    if e.len() > 0 {
        assert(view_errors(e.drop_last()) =~= view_errors(e).drop_last());
        let x = Error { span: BSpan { from: e.last().span.from, to: err.span.to }, kind: e.last().kind };
        assert(view_errors(e.drop_last().push(x)) =~= view_errors(e.drop_last()).push(view_error(x)));
    }
}

/// The parser's state: a lexeme pushed back, the cursor, and what has been collected.
pub struct Parser<'a> {
    curr: Option<(Lexeme, BSpan)>,
    pub(crate) cursor: Cursor<'a>,
    pub(crate) comments: Vec<Comment>,
    pub(crate) docs: Vec<DocComment>,
    pub(crate) errors: Vec<Error>,
    pub(crate) terms: Vec<Term>,
}

impl<'a> Parser<'a> {
    pub closed spec fn wf(&self) -> bool {
        &&& self.cursor.wf()
        &&& self.curr matches Some((tok, span)) ==> {
            &&& span.from == self.cursor.lex_start()
            &&& span.to == self.cursor.offset()
            &&& span.to - span.from == tok.len
            &&& (tok.kind != LexKind::Eof ==> span.from < span.to)
            &&& (tok.kind, self.cursor.index()) == lex_at(self.cursor.text(), self.cursor.lex_index())
            &&& (tok.kind == LexKind::Eof ==> self.cursor.index() == self.cursor.lex_index())
        }
        &&& arena_ok(self.terms@)
        &&& idents_on_chars(self.terms@, self.cursor.text())
        &&& self.terms@.len() <= self.next_from()
    }

    /// The character index where the next lexeme starts.
    pub closed spec fn pos(&self) -> int {
        match self.curr {
            Some(_) => self.cursor.lex_index(),
            None => self.cursor.index(),
        }
    }

    /// The position is inside the text.
    pub proof fn lemma_pos(&self)
        requires
            self.wf(),
        ensures
            0 <= self.pos() <= self.text().len(),
    {
        self.cursor.lemma_wf();
    }

    /// What has been built so far.
    pub closed spec fn progress(&self) -> Progress {
        Progress {
            terms: self.terms@,
            errors: view_errors(self.errors@),
            comments: self.comments@,
            docs: self.docs@,
        }
    }

    /// The source text.
    pub closed spec fn text(&self) -> Seq<char> {
        self.cursor.text()
    }

    /// The source string.
    pub closed spec fn source(&self) -> &'a str {
        self.cursor.source()
    }

    /// The term arena so far.
    pub closed spec fn arena(&self) -> Seq<Term> {
        self.terms@
    }

    /// The byte offset where the next lexeme starts.
    pub closed spec fn next_from(&self) -> u32 {
        match self.curr {
            Some((_, span)) => span.from,
            None => self.cursor.offset(),
        }
    }

    /// Decreases with every lexeme taken but the end of input.
    pub closed spec fn measure(&self) -> nat {
        (2 * (self.cursor.text().len() - self.cursor.index()) + match self.curr {
            Some((tok, _)) => if tok.kind != LexKind::Eof {
                1int
            } else {
                0int
            },
            None => 0int,
        }) as nat
    }

    /// The span that `span` stands for at the current lexeme.
    pub closed spec fn resolve(&self, span: AsBSpan) -> BSpan {
        match span {
            AsBSpan::Len(len) => BSpan {
                from: self.cursor.lex_start(),
                to: (self.cursor.lex_start() + len) as u32,
            },
            AsBSpan::Lex(tok) => BSpan {
                from: self.cursor.lex_start(),
                to: (self.cursor.lex_start() + tok.len) as u32,
            },
            AsBSpan::Span(s) => s,
        }
    }

    /// The span that `span` stands for fits in a `u32`.
    pub closed spec fn resolvable(&self, span: AsBSpan) -> bool {
        match span {
            AsBSpan::Len(len) => self.cursor.lex_start() + len <= u32::MAX,
            AsBSpan::Lex(tok) => self.cursor.lex_start() + tok.len <= u32::MAX,
            AsBSpan::Span(_) => true,
        }
    }

    pub fn new(input: &'a str) -> (r: Self)
        requires
            byte_len(input@) <= u32::MAX,
        ensures
            r.wf(),
            r.text() == input@,
            r.source() == input,
            r.arena() == Seq::<Term>::empty(),
            r.pos() == 0,
            r.progress() == crate::model::start(),
    {
        proof {
            assert(view_errors(Seq::<Error>::empty()) =~= Seq::<(BSpan, ErrorView)>::empty());
        }
        Parser {
            curr: None,
            cursor: Cursor::new(input),
            comments: Vec::new(),
            docs: Vec::new(),
            errors: Vec::new(),
            terms: Vec::new(),
        }
    }

    /// The span that `span` stands for at the current lexeme.
    pub fn span(&self, span: AsBSpan) -> (r: BSpan)
        requires
            self.wf(),
            self.resolvable(span),
        ensures
            r == self.resolve(span),
    {
        match span {
            AsBSpan::Len(len) => self.token_span(len),
            AsBSpan::Lex(token) => self.token_span(token.len),
            AsBSpan::Span(span) => span,
        }
    }

    /// The text of the span that `span` stands for.
    pub fn slice(&self, span: AsBSpan) -> (r: &'a str)
        requires
            self.wf(),
            self.resolvable(span),
            char_span(self.text(), self.resolve(span).from as int, self.resolve(span).to as int),
        ensures
            r@ == crate::text::span_text(
                self.text(),
                self.resolve(span).from as int,
                self.resolve(span).to as int,
            ),
    {
        proof {
            self.cursor.lemma_wf();
        }
        let s = self.span(span);
        slice_source(self.cursor.src(), s)
    }

    fn token_pos(&self) -> (r: u32)
        ensures
            r == self.cursor.lex_start(),
    {
        self.cursor.lex_pos()
    }

    fn token_span(&self, len: u32) -> (r: BSpan)
        requires
            self.cursor.lex_start() + len <= u32::MAX,
        ensures
            r == (BSpan { from: self.cursor.lex_start(), to: (self.cursor.lex_start() + len) as u32 }),
    {
        BSpan::new(self.token_pos(), self.token_pos() + len)
    }

    /// The next lexeme and its span: the one pushed back, or a new one.
    fn advance(&mut self) -> (r: (Lexeme, BSpan))
        requires
            old(self).wf(),
        ensures
            final(self).wf(),
            final(self).curr is None,
            final(self).text() == old(self).text(),
            final(self).source() == old(self).source(),
            final(self).terms == old(self).terms,
            final(self).errors == old(self).errors,
            final(self).comments == old(self).comments,
            final(self).docs == old(self).docs,
            r.1.from == old(self).next_from(),
            r.1.to == final(self).next_from(),
            r.1.from == final(self).cursor.lex_start(),
            r.1.to == final(self).cursor.offset(),
            r.1.to - r.1.from == r.0.len,
            char_span(final(self).text(), r.1.from as int, r.1.to as int),
            r.0.kind != LexKind::Eof ==> r.1.from < r.1.to && final(self).measure() < old(
                self,
            ).measure(),
            r.0.kind == LexKind::Eof ==> final(self).measure() <= old(self).measure(),
            (r.0.kind, final(self).pos()) == lex_at(old(self).text(), old(self).pos()),
            final(self).cursor.lex_index() == old(self).pos(),
            r.1 == tspan(old(self).text(), old(self).pos(), final(self).pos()),
            final(self).pos() <= final(self).text().len(),
            r.0.kind != LexKind::Eof ==> old(self).pos() < final(self).pos(),
            r.0.kind == LexKind::Eof ==> old(self).pos() == final(self).pos(),
            old(self).pos() <= final(self).pos(),
    {
        proof {
            self.cursor.lemma_wf();
        }
        match self.curr.take() {
            Some(c) => c,
            None => {
                let token = self.cursor.advance();
                proof {
                    self.cursor.lemma_wf();
                    if self.cursor.index() > old(self).cursor.index() {
                        lemma_offset_strict(
                            self.cursor.text(),
                            old(self).cursor.index(),
                            self.cursor.index(),
                        );
                    }
                }
                let span = BSpan::new(self.cursor.lex_pos(), self.cursor.pos());
                (token, span)
            },
        }
    }

    /// Pushes a lexeme back, to be taken again by the next `advance`.
    fn reverse(&mut self, token: Lexeme, span: BSpan)
        requires
            old(self).wf(),
            old(self).curr is None,
            span.from == old(self).cursor.lex_start(),
            span.to == old(self).cursor.offset(),
            span.to - span.from == token.len,
            token.kind != LexKind::Eof ==> span.from < span.to,
            old(self).terms@.len() <= span.from,
            (token.kind, old(self).cursor.index()) == lex_at(old(self).text(), old(self).cursor.lex_index()),
            token.kind == LexKind::Eof ==> old(self).cursor.index() == old(self).cursor.lex_index(),
        ensures
            final(self).pos() == old(self).cursor.lex_index(),
            final(self).progress() == old(self).progress(),
            final(self).wf(),
            final(self).text() == old(self).text(),
            final(self).source() == old(self).source(),
            final(self).terms == old(self).terms,
            final(self).errors == old(self).errors,
            final(self).next_from() == span.from,
            final(self).measure() == old(self).measure() + (if token.kind != LexKind::Eof {
                1int
            } else {
                0int
            }),
    {
        proof {
            self.cursor.lemma_wf();
        }
        self.curr = Some((token, span));
    }

    /// The next lexeme that is neither whitespace nor a comment; comments are recorded.
    fn until_non_wc(&mut self) -> (r: (Lexeme, BSpan))
        requires
            old(self).wf(),
        ensures
            final(self).wf(),
            final(self).curr is None,
            final(self).text() == old(self).text(),
            final(self).source() == old(self).source(),
            final(self).terms == old(self).terms,
            old(self).next_from() <= r.1.from <= r.1.to,
            r.1.to == final(self).next_from(),
            r.1.from == final(self).cursor.lex_start(),
            r.1.to == final(self).cursor.offset(),
            r.1.to - r.1.from == r.0.len,
            char_span(final(self).text(), r.1.from as int, r.1.to as int),
            r.0.kind != LexKind::Eof ==> r.1.from < r.1.to && final(self).measure() < old(
                self,
            ).measure(),
            r.0.kind == LexKind::Eof ==> final(self).measure() <= old(self).measure(),
            (final(self).progress(), final(self).cursor.lex_index()) == skip(
                old(self).text(),
                old(self).pos(),
                old(self).progress(),
            ),
            (r.0.kind, final(self).pos()) == lex_at(final(self).text(), final(self).cursor.lex_index()),
            r.1 == tspan(final(self).text(), final(self).cursor.lex_index(), final(self).pos()),
            old(self).pos() <= final(self).cursor.lex_index() <= final(self).pos() <= final(self).text().len(),
            r.0.kind != LexKind::Eof ==> final(self).cursor.lex_index() < final(self).pos(),
            r.0.kind == LexKind::Eof ==> final(self).cursor.lex_index() == final(self).pos(),
            !is_wc(r.0.kind),
    {
        loop
            invariant
                self.wf(),
                self.text() == old(self).text(),
                self.source() == old(self).source(),
                self.terms == old(self).terms,
                old(self).next_from() <= self.next_from(),
                self.measure() <= old(self).measure(),
                skip(self.text(), old(self).pos(), old(self).progress()) == skip(
                    self.text(),
                    self.pos(),
                    self.progress(),
                ),
                old(self).pos() <= self.pos(),
            decreases self.measure(),
        {
            let (token, span) = self.advance();
            if !self.handle_wc(token, span) {
                return (token, span);
            }
        }
    }

    /// Records a comment. A line comment has a doc style or not.
    fn push_comment(&mut self, style: Option<DocStyle>, span: BSpan)
        ensures
            final(self).cursor == old(self).cursor,
            final(self).curr == old(self).curr,
            final(self).terms == old(self).terms,
            final(self).errors == old(self).errors,
            style is None ==> final(self).comments@ == old(self).comments@.push(Comment(span))
                && final(self).docs == old(self).docs,
            style matches Some(s) ==> final(self).docs@ == old(self).docs@.push(
                DocComment(s, span),
            ) && final(self).comments == old(self).comments,
            final(self).progress() == old(self).progress().with_comment(style, span),
    {
        match style {
            Some(style) => self.docs.push(DocComment(style, span)),
            None => self.comments.push(Comment(span)),
        }
    }

    /// Records what a comment or whitespace lexeme holds; true if it is one.
    fn handle_wc(&mut self, token: Lexeme, span: BSpan) -> (r: bool)
        ensures
            final(self).cursor == old(self).cursor,
            final(self).curr == old(self).curr,
            final(self).terms == old(self).terms,
            r == is_wc(token.kind),
            final(self).progress() == if is_wc(token.kind) {
                record_wc(old(self).progress(), token.kind, span)
            } else {
                old(self).progress()
            },
    {
        match token.kind {
            LexKind::LineComment { doc_style } => {
                self.push_comment(doc_style, span);
                true
            },
            LexKind::BlockComment { doc_style, terminated } => {
                if !terminated {
                    self.push_err(Error { span, kind: ErrorKind::Unterminated });
                }
                self.push_comment(doc_style, span);
                true
            },
            LexKind::Whitespace => true,
            _ => false,
        }
    }

    /// Records that `span` holds none of the `expected` kinds.
    fn err_expected(&mut self, span: BSpan, expected: Vec<LexKind>)
        ensures
            final(self).cursor == old(self).cursor,
            final(self).curr == old(self).curr,
            final(self).terms == old(self).terms,
            final(self).progress() == old(self).progress().with_error(
                (span, ErrorView::Expected(expected@)),
            ),
    {
        self.push_err(Error { span, kind: ErrorKind::Expected(expected) });
    }

    /// Records an error, merged into the last one where the two congregate.
    fn push_err(&mut self, err: Error)
        ensures
            final(self).cursor == old(self).cursor,
            final(self).curr == old(self).curr,
            final(self).terms == old(self).terms,
            final(self).comments == old(self).comments,
            final(self).docs == old(self).docs,
            final(self).errors@.len() >= old(self).errors@.len(),
            ({
                let e = old(self).errors@;
                if e.len() > 0 && merges(e.last(), err) {
                    final(self).errors@ == e.drop_last().push(
                        Error {
                            span: BSpan { from: e.last().span.from, to: err.span.to },
                            kind: e.last().kind,
                        },
                    )
                } else {
                    final(self).errors@ == e.push(err)
                }
            }),
            final(self).progress() == old(self).progress().with_error(view_error(err)),
    {
        let ghost e = self.errors@;
        proof {
            lemma_view_errors(e, err);
        }
        match self.errors.pop() {
            None => self.errors.push(err),
            Some(mut prev) => {
                let rest = self.congregated(&mut prev, err);
                self.errors.push(prev);
                if let Some(e) = rest {
                    self.errors.push(e);
                }
            },
        }
    }

    fn congregated(&self, prev: &mut Error, err: Error) -> (r: Option<Error>)
        ensures
            merges(*old(prev), err) ==> r is None && *final(prev) == (Error {
                span: BSpan { from: old(prev).span.from, to: err.span.to },
                kind: old(prev).kind,
            }),
            !merges(*old(prev), err) ==> r == Some(err) && *final(prev) == *old(prev),
    {
        prev.congregate(err)
    }
}


impl<'a> Parser<'a> {
    /// The next rule: a name, an opening brace, and a body up to the closing brace or the
    /// end of input. `None` once the input is used up.
    pub fn next_rule(&mut self) -> (r: Option<Rule>)
        requires
            old(self).wf(),
        ensures
            final(self).wf(),
            final(self).text() == old(self).text(),
            final(self).source() == old(self).source(),
            old(self).arena().len() <= final(self).arena().len(),
            final(self).arena().take(old(self).arena().len() as int) == old(self).arena(),
            r matches Some(rule) ==> {
                &&& rule.ok_in(final(self).arena())
                &&& rule.expr matches Some(list) && list.terms == (TSpan {
                    from: old(self).arena().len() as u32,
                    to: final(self).arena().len() as u32,
                })
                &&& char_span(final(self).text(), rule.name.from as int, rule.name.to as int)
                &&& final(self).measure() < old(self).measure()
            },
            r is None ==> final(self).arena() == old(self).arena(),
            (final(self).progress(), r, final(self).pos()) == crate::model::next_rule(
                old(self).text(),
                old(self).pos(),
                old(self).progress(),
            ),
            old(self).pos() <= final(self).pos() <= final(self).text().len(),
            r is Some ==> old(self).pos() < final(self).pos(),
    {
        let mut name = BSpan::empty(0);
        let mut open = BSpan::empty(0);
        let ghost t = self.text();
        let ghost goal = crate::model::find_rule(t, old(self).pos(), old(self).progress());
        proof {
            self.lemma_pos();
        }
        loop
            invariant_except_break
                goal == crate::model::find_rule(t, self.pos(), self.progress()),
            invariant
                goal == crate::model::find_rule(t, old(self).pos(), old(self).progress()),
                self.text() == t,
                old(self).pos() <= self.pos() <= t.len(),
                self.wf(),
                self.text() == old(self).text(),
                self.source() == old(self).source(),
                self.terms == old(self).terms,
                self.measure() <= old(self).measure(),
            ensures
                goal == (self.progress(), Some((name, open)), self.pos()),
                old(self).pos() < self.pos() <= t.len(),
                self.wf(),
                self.text() == old(self).text(),
                self.source() == old(self).source(),
                self.terms == old(self).terms,
                self.measure() < old(self).measure(),
                self.curr is None,
                open.to == self.next_from(),
                self.terms@.len() <= open.from < open.to,
                name.from <= name.to <= open.from,
                char_span(self.text(), name.from as int, name.to as int),
            decreases self.measure(),
        {
            let ghost b0 = self.pos();
            let ghost p0 = self.progress();
            proof {
                assert(goal == crate::model::find_rule(t, b0, p0));
            }
            let span = match self.until_ident() {
                Some(s) => s,
                None => {
                    proof {
                        assert(crate::model::find_rule(t, b0, p0) == (
                            self.progress(),
                            None::<(BSpan, BSpan)>,
                            self.pos(),
                        ));
                        assert(goal == crate::model::find_rule(t, old(self).pos(), old(self).progress()));
                        assert(crate::model::next_rule(t, old(self).pos(), old(self).progress()) == (
                            self.progress(),
                            None::<Rule>,
                            self.pos(),
                        ));
                    }
                    return None;
                },
            };
            if let Some(o) = self.rule_opener(span) {
                name = span;
                open = o;
                break;
            }
        }
        let (close, terms) = self.list(name, open);
        let rule = Rule {
            name,
            expr: Some(List { span: BSpan::new(open.from, close), terms }),
            span: name.to(close),
        };
        proof {
            assert(self.terms@.take(old(self).terms@.len() as int) =~= old(self).terms@);
        }
        Some(rule)
    }

    /// A rule body after its opening brace, up to the closing brace or the end of input.
    /// Gives the end of the body and the run of the arena it owns.
    fn list(&mut self, name: BSpan, open: BSpan) -> (r: (u32, TSpan))
        requires
            old(self).wf(),
            old(self).curr is None,
            open.to == old(self).next_from(),
            old(self).terms@.len() <= open.from < open.to,
            name.from <= name.to <= open.from,
        ensures
            final(self).wf(),
            final(self).text() == old(self).text(),
            final(self).source() == old(self).source(),
            final(self).measure() <= old(self).measure(),
            open.to <= r.0,
            r.1 == (TSpan { from: old(self).terms@.len() as u32, to: final(self).terms@.len() as u32 }),
            (List { span: BSpan { from: open.from, to: r.0 }, terms: r.1 }).holds(final(self).terms@),
            old(self).terms@.len() <= final(self).terms@.len(),
            forall|j: int|
                0 <= j < old(self).terms@.len() ==> final(self).terms@[j] == old(self).terms@[j],
            (final(self).progress(), r.0, r.1, final(self).pos()) == crate::model::list(
                old(self).text(),
                old(self).pos(),
                old(self).progress(),
                name,
                open,
            ),
            old(self).pos() <= final(self).pos() <= final(self).text().len(),
    {
        let first = self.terms.len() as u32;
        let mut groups: Vec<u32> = Vec::new();
        let mut ors: Vec<u32> = Vec::new();
        let mut last_end: u32 = open.to;
        proof {
            self.cursor.lemma_wf();
            assert forall|i: int| 0 <= i < first implies (#[trigger] self.terms@[i]).spec_span().wf()
                && container_ok(self.terms@, i) && (self.terms@[i].is_container()
                ==> self.terms@[i].list().terms.to <= first) by {
                assert(arena_ok(self.terms@));
            }
        }
        let mut stop = BSpan::empty(0);
        let mut eof = false;
        let ghost t = self.text();
        let ghost goal = crate::model::list_loop(
            t,
            old(self).pos(),
            old(self).progress(),
            Seq::empty(),
            Seq::empty(),
            open.to as int,
        );
        let ghost mut stop_b: int = 0;
        let ghost mut stop_e: int = 0;
        proof {
            self.lemma_pos();
            assert(groups@ =~= Seq::<u32>::empty());
            assert(ors@ =~= Seq::<u32>::empty());
        }
        loop
            invariant_except_break
                goal == crate::model::list_loop(t, self.pos(), self.progress(), groups@, ors@, last_end as int),
                !eof,
            invariant
                old(self).pos() <= self.pos() <= t.len(),
                self.text() == t,
                self.wf(),
                self.curr is None,
                self.text() == old(self).text(),
                self.source() == old(self).source(),
                self.measure() <= old(self).measure(),
                first == old(self).terms@.len(),
                building(self.terms@, first as int, groups@, ors@, open.from as int, last_end as int),
                open.to <= last_end <= self.next_from(),
                forall|j: int| 0 <= j < first ==> self.terms@[j] == old(self).terms@[j],
            ensures
                goal == (self.progress(), groups@, ors@, last_end as int, (stop_b, stop_e), eof),
                stop == tspan(t, stop_b, stop_e),
                stop_e == self.pos(),
                old(self).pos() <= self.pos() <= t.len(),
                self.text() == t,
                self.wf(),
                self.curr is None,
                self.text() == old(self).text(),
                self.source() == old(self).source(),
                self.measure() <= old(self).measure(),
                building(self.terms@, first as int, groups@, ors@, open.from as int, last_end as int),
                open.to <= last_end <= stop.to,
                stop.to == self.next_from(),
                forall|j: int| 0 <= j < first ==> self.terms@[j] == old(self).terms@[j],
            decreases self.measure(),
        {
            let ghost b0 = self.pos();
            let ghost p0 = self.progress();
            let (token, span) = self.until_non_wc();
            proof {
                self.cursor.lemma_wf();
                stop_b = self.cursor.lex_index();
                stop_e = self.pos();
                assert(goal == crate::model::list_loop(t, b0, p0, groups@, ors@, last_end as int));
            }
            match token.kind {
                LexKind::CloseBrace => {
                    stop = span;
                    break;
                },
                LexKind::Eof => {
                    stop = span;
                    eof = true;
                    break;
                },
                LexKind::OpenParen => {
                    let i = self.terms.len() as u32;
                    let x = Term::Group(List::new(span, TSpan::empty(i + 1)));
                    proof {
                        lemma_push(self.terms@, first as int, groups@, ors@, open.from as int, last_end as int, x);
                        lemma_idents_push(self.terms@, self.cursor.text(), x);
                    }
                    self.terms.push(x);
                    groups.push(i);
                    last_end = span.to;
                },
                LexKind::CloseParen => {
                    if groups.len() > 0 {
                        self.pop_group(&mut ors, &mut groups, span.to, last_end, Ghost(first as int), Ghost(open.from as int));
                        last_end = span.to;
                    } else {
                        self.err_expected(span, list_expected());
                    }
                },
                LexKind::Or => {
                    self.handle_or(&mut ors, &groups, last_end, Ghost(first as int), Ghost(open.from as int));
                    let i = self.terms.len() as u32;
                    let x = Term::Or(List::new(span, TSpan::empty(i + 1)));
                    proof {
                        lemma_push(self.terms@, first as int, groups@, ors@, open.from as int, last_end as int, x);
                        lemma_idents_push(self.terms@, self.cursor.text(), x);
                    }
                    self.terms.push(x);
                    ors.push(i);
                    last_end = span.to;
                },
                LexKind::Ident => {
                    let x = Term::Ident(span);
                    proof {
                        lemma_push(self.terms@, first as int, groups@, ors@, open.from as int, last_end as int, x);
                        lemma_idents_push(self.terms@, self.cursor.text(), x);
                    }
                    self.terms.push(x);
                    last_end = span.to;
                },
                LexKind::Literal { kind, .. } => {
                    if kind.is_string() {
                        if !kind.terminated() {
                            self.push_err(
                                Error {
                                    span,
                                    kind: ErrorKind::InvalidLit(InvalidLiteral::Unterminated),
                                },
                            );
                        }
                        let x = Term::Literal(span);
                        proof {
                            lemma_push(self.terms@, first as int, groups@, ors@, open.from as int, last_end as int, x);
                            lemma_idents_push(self.terms@, self.cursor.text(), x);
                        }
                        self.terms.push(x);
                        last_end = span.to;
                    } else {
                        self.push_err(Error::from((InvalidLiteral::Numeric, span)));
                    }
                },
                _ => self.err_expected(span, list_expected()),
            }
        }
        proof {
            self.cursor.lemma_wf();
            lemma_offset_mono(t, stop_e, t.len() as int);
            assert(t.take(t.len() as int) =~= t);
            assert(stop.to as int == byte_offset(t, stop_e));
        }
        let ghost p1 = self.progress();
        let ghost (ts2, _l2, unclosed) = crate::model::close_open(
            p1.terms,
            groups@,
            ors@,
            stop.to as int,
            last_end as int,
            Seq::empty(),
        );
        let last_end = self.handle_unclosed(groups, ors, stop, last_end, Ghost(first as int), Ghost(open.from as int));
        if eof {
            self.push_err(Error { span: BSpan::new(name.from, stop.to), kind: ErrorKind::UnclosedRule });
        }
        proof {
            assert(self.terms@ == ts2);
            assert(self.comments@ == p1.comments);
            assert(self.docs@ == p1.docs);
        }
        proof {
            lemma_finish(self.terms@, first as int, Seq::empty(), Seq::empty(), open.from as int, last_end as int);
        }
        (stop.to, TSpan::new(first, self.terms.len() as u32))
    }

    /// Closes the innermost open or, if it lies inside the innermost open group (or no
    /// group is open), ending it at `last_end`. True if one was closed.
    fn handle_or(
        &mut self,
        ors: &mut Vec<u32>,
        groups: &Vec<u32>,
        last_end: u32,
        Ghost(first): Ghost<int>,
        Ghost(open): Ghost<int>,
    ) -> (r: bool)
        requires
            building(old(self).terms@, first, groups@, old(ors)@, open, last_end as int),
            idents_on_chars(old(self).terms@, old(self).cursor.text()),
        ensures
            building(final(self).terms@, first, groups@, final(ors)@, open, last_end as int),
            idents_on_chars(final(self).terms@, final(self).cursor.text()),
            final(self).terms@.len() == old(self).terms@.len(),
            forall|j: int| 0 <= j < first ==> final(self).terms@[j] == old(self).terms@[j],
            final(self).cursor == old(self).cursor,
            final(self).curr == old(self).curr,
            r ==> final(ors)@ == old(ors)@.drop_last() && old(ors)@.len() > 0,
            !r ==> final(ors)@ == old(ors)@,
            !r ==> old(ors)@.len() == 0 || (groups@.len() > 0 && old(ors)@.last()
                < groups@.last()),
            r == crate::model::or_closes(groups@, old(ors)@),
            (final(self).terms@, final(ors)@) == crate::model::handle_or(
                old(self).terms@,
                groups@,
                old(ors)@,
                last_end as int,
            ),
            final(self).errors == old(self).errors,
            final(self).comments == old(self).comments,
            final(self).docs == old(self).docs,
    {
        if ors.len() == 0 {
            return false;
        }
        let o = ors[ors.len() - 1];
        if groups.len() > 0 && o <= groups[groups.len() - 1] {
            proof {
                if o == groups@.last() {
                    let k = o as int;
                    assert(self.terms@[k] is Or);
                    assert(self.terms@[k] is Group);
                }
            }
            return false;
        }
        self.close(o, last_end);
        proof {
            let ghost t = old(self).terms@;
            lemma_close(t, first, groups@, old(ors)@, open, last_end as int, false, self.terms@[o as int], last_end as int);
            assert(self.terms@ == t.update(o as int, self.terms@[o as int]));
        }
        ors.pop();
        true
    }

    /// Sets the run of the container at `c` to end at the end of the arena, and its span
    /// to end at `to`.
    fn close(&mut self, c: u32, to: u32)
        requires
            c < old(self).terms@.len(),
            old(self).terms@[c as int].is_container(),
        ensures
            final(self).terms@ == old(self).terms@.update(c as int, final(self).terms@[c as int]),
            closed_as(old(self).terms@, c as int, final(self).terms@[c as int], to as int),
            idents_on_chars(old(self).terms@, old(self).cursor.text()) ==> idents_on_chars(
                final(self).terms@,
                final(self).cursor.text(),
            ),
            final(self).cursor == old(self).cursor,
            final(self).curr == old(self).curr,
            final(self).errors == old(self).errors,
            final(self).comments == old(self).comments,
            final(self).docs == old(self).docs,
            final(self).terms@ == crate::model::close_at(old(self).terms@, c as int, to as int),
    {
        let len = self.terms.len() as u32;
        let x = match self.terms[c as usize] {
            Term::Group(l) => Term::Group(List::new(l.span.to(to), l.terms.to(len))),
            Term::Or(l) => Term::Or(List::new(l.span.to(to), l.terms.to(len))),
            other => other,
        };
        proof {
            if idents_on_chars(self.terms@, self.cursor.text()) {
                lemma_idents_update(self.terms@, self.cursor.text(), c as int, x);
            }
        }
        self.terms.set(c as usize, x);
    }

    /// Closes the innermost open group at a closing parenthesis that ends at `to`, after the
    /// or that is open inside it, if any.
    fn pop_group(
        &mut self,
        ors: &mut Vec<u32>,
        groups: &mut Vec<u32>,
        to: u32,
        last_end: u32,
        Ghost(first): Ghost<int>,
        Ghost(open): Ghost<int>,
    )
        requires
            building(old(self).terms@, first, old(groups)@, old(ors)@, open, last_end as int),
            old(groups)@.len() > 0,
            last_end <= to,
            idents_on_chars(old(self).terms@, old(self).cursor.text()),
        ensures
            building(final(self).terms@, first, final(groups)@, final(ors)@, open, to as int),
            idents_on_chars(final(self).terms@, final(self).cursor.text()),
            final(self).terms@.len() == old(self).terms@.len(),
            forall|j: int| 0 <= j < first ==> final(self).terms@[j] == old(self).terms@[j],
            final(self).cursor == old(self).cursor,
            final(self).curr == old(self).curr,
            final(self).errors == old(self).errors,
            final(self).comments == old(self).comments,
            final(self).docs == old(self).docs,
            (final(self).terms@, final(groups)@, final(ors)@) == crate::model::pop_group(
                old(self).terms@,
                old(groups)@,
                old(ors)@,
                to as int,
                last_end as int,
            ),
    {
        let ghost t0 = self.terms@;
        let last: u32 = last_end;
        loop
            invariant
                self.errors == old(self).errors,
                self.comments == old(self).comments,
                self.docs == old(self).docs,
                crate::model::close_ors(t0, groups@, old(ors)@, last_end as int)
                    == crate::model::close_ors(self.terms@, groups@, ors@, last_end as int),
                building(self.terms@, first, groups@, ors@, open, last_end as int),
                idents_on_chars(self.terms@, self.cursor.text()),
                groups@ == old(groups)@,
                self.terms@.len() == t0.len(),
                forall|j: int| 0 <= j < first ==> self.terms@[j] == t0[j],
                self.cursor == old(self).cursor,
                self.curr == old(self).curr,
                last == last_end,
            ensures
                building(self.terms@, first, groups@, ors@, open, last_end as int),
                idents_on_chars(self.terms@, self.cursor.text()),
                groups@ == old(groups)@,
                self.terms@.len() == t0.len(),
                forall|j: int| 0 <= j < first ==> self.terms@[j] == t0[j],
                self.cursor == old(self).cursor,
                self.curr == old(self).curr,
                ors@.len() == 0 || ors@.last() < groups@.last(),
                self.errors == old(self).errors,
                self.comments == old(self).comments,
                self.docs == old(self).docs,
                crate::model::close_ors(t0, groups@, old(ors)@, last_end as int) == (self.terms@, ors@),
            decreases ors@.len(),
        {
            if !self.handle_or(ors, groups, last, Ghost(first), Ghost(open)) {
                break;
            }
        }
        let g = groups[groups.len() - 1];
        let ghost t1 = self.terms@;
        self.close(g, to);
        proof {
            lemma_close(t1, first, groups@, ors@, open, last_end as int, true, self.terms@[g as int], to as int);
        }
        groups.pop();
    }

    /// At the end of a body, closes what is still open, innermost first: ors end at the
    /// end of their last lexeme, groups at the end of `stop`, each group with an
    /// `Unterminated` error. Gives the new end of the body's content.
    fn handle_unclosed(
        &mut self,
        groups: Vec<u32>,
        ors: Vec<u32>,
        stop: BSpan,
        last_end: u32,
        Ghost(first): Ghost<int>,
        Ghost(open): Ghost<int>,
    ) -> (r: u32)
        requires
            old(self).wf(),
            building(old(self).terms@, first, groups@, ors@, open, last_end as int),
            last_end <= stop.to,
            old(self).terms@.len() <= old(self).next_from(),
        ensures
            final(self).wf(),
            building(final(self).terms@, first, Seq::empty(), Seq::empty(), open, r as int),
            last_end <= r <= stop.to,
            final(self).terms@.len() == old(self).terms@.len(),
            forall|j: int| 0 <= j < first ==> final(self).terms@[j] == old(self).terms@[j],
            final(self).cursor == old(self).cursor,
            final(self).curr == old(self).curr,
            final(self).comments == old(self).comments,
            final(self).docs == old(self).docs,
            ({
                let (ts, last, unclosed) = crate::model::close_open(
                    old(self).terms@,
                    groups@,
                    ors@,
                    stop.to as int,
                    last_end as int,
                    Seq::empty(),
                );
                &&& final(self).terms@ == ts
                &&& r == last
                &&& view_errors(final(self).errors@) == crate::model::report_unclosed(
                    view_errors(old(self).errors@),
                    ts,
                    unclosed,
                )
            }),
    {
        let mut groups = groups;
        let mut ors = ors;
        let mut last = last_end;
        let mut unclosed: Vec<u32> = Vec::new();
        let ghost t0 = self.terms@;
        let ghost goal = crate::model::close_open(t0, groups@, ors@, stop.to as int, last_end as int, Seq::empty());
        while groups.len() > 0 || ors.len() > 0
            invariant
                goal == crate::model::close_open(self.terms@, groups@, ors@, stop.to as int, last as int, unclosed@),
                self.errors == old(self).errors,
                self.comments == old(self).comments,
                self.docs == old(self).docs,
                building(self.terms@, first, groups@, ors@, open, last as int),
                idents_on_chars(self.terms@, self.cursor.text()),
                last_end <= last <= stop.to,
                self.terms@.len() == t0.len(),
                forall|j: int| 0 <= j < first ==> self.terms@[j] == t0[j],
                forall|k: int| 0 <= k < unclosed@.len() ==> unclosed@[k] < self.terms@.len(),
                self.cursor == old(self).cursor,
                self.curr == old(self).curr,
            decreases groups@.len() + ors@.len(),
        {
            if groups.len() > 0 && (ors.len() == 0 || ors[ors.len() - 1] < groups[groups.len() - 1]) {
                let g = groups[groups.len() - 1];
                let ghost t1 = self.terms@;
                self.close(g, stop.to);
                proof {
                    lemma_close(t1, first, groups@, ors@, open, last as int, true, self.terms@[g as int], stop.to as int);
                }
                groups.pop();
                unclosed.push(g);
                last = stop.to;
            } else {
                let o = ors[ors.len() - 1];
                proof {
                    if groups@.len() > 0 && o == groups@.last() {
                        let k = o as int;
                        assert(self.terms@[k] is Or);
                        assert(self.terms@[k] is Group);
                    }
                }
                let ghost t1 = self.terms@;
                self.close(o, last);
                proof {
                    lemma_close(t1, first, groups@, ors@, open, last as int, false, self.terms@[o as int], last as int);
                }
                ors.pop();
            }
        }
        proof {
            lemma_finish(self.terms@, first, groups@, ors@, open, last as int);
            assert(groups@ =~= Seq::<u32>::empty());
            assert(ors@ =~= Seq::<u32>::empty());
        }
        // Report the groups outermost first.
        let ghost e0 = view_errors(self.errors@);
        let mut k = unclosed.len();
        proof {
            assert(goal == (self.terms@, last as int, unclosed@));
            assert(unclosed@.take(unclosed@.len() as int) =~= unclosed@);
        }
        while k > 0
            invariant
                goal == (self.terms@, last as int, unclosed@),
                crate::model::report_unclosed(e0, self.terms@, unclosed@) == crate::model::report_unclosed(
                    view_errors(self.errors@),
                    self.terms@,
                    unclosed@.take(k as int),
                ),
                self.comments == old(self).comments,
                self.docs == old(self).docs,
                building(self.terms@, first, Seq::empty(), Seq::empty(), open, last as int),
                idents_on_chars(self.terms@, self.cursor.text()),
                k <= unclosed@.len(),
                self.terms@.len() == t0.len(),
                forall|j: int| 0 <= j < first ==> self.terms@[j] == t0[j],
                forall|i: int| 0 <= i < unclosed@.len() ==> unclosed@[i] < self.terms@.len(),
                self.cursor == old(self).cursor,
                self.curr == old(self).curr,
            decreases k,
        {
            k -= 1;
            let g = unclosed[k];
            let err_span = self.terms[g as usize].span();
            proof {
                assert(unclosed@.take(k + 1).drop_last() =~= unclosed@.take(k as int));
                assert(unclosed@.take(k + 1).last() == unclosed@[k as int]);
            }
            self.push_err(Error { span: err_span, kind: ErrorKind::Unterminated });
        }
        proof {
            lemma_finish(self.terms@, first, Seq::empty(), Seq::empty(), open, last as int);
            assert(unclosed@.take(0) =~= Seq::<u32>::empty());
        }
        last
    }

    /// After a rule name, the opening brace. Otherwise records an `UnopenedRule` error at
    /// the name, pushes the lexeme back and gives `None`.
    fn rule_opener(&mut self, err_span: BSpan) -> (r: Option<BSpan>)
        requires
            old(self).wf(),
        ensures
            final(self).wf(),
            final(self).text() == old(self).text(),
            final(self).source() == old(self).source(),
            final(self).terms == old(self).terms,
            r matches Some(s) ==> {
                &&& final(self).curr is None
                &&& old(self).next_from() <= s.from < s.to
                &&& s.to == final(self).next_from()
                &&& final(self).measure() < old(self).measure()
            },
            r is None ==> final(self).measure() <= old(self).measure(),
            (final(self).progress(), r, final(self).pos()) == crate::model::rule_opener(
                old(self).text(),
                old(self).pos(),
                old(self).progress(),
                err_span,
            ),
            old(self).pos() <= final(self).pos() <= final(self).text().len(),
    {
        let (token, span) = self.until_non_wc();
        proof {
            self.cursor.lemma_wf();
        }
        if token.kind == LexKind::OpenBrace {
            Some(span)
        } else {
            self.push_err(Error { span: err_span, kind: ErrorKind::UnopenedRule });
            self.reverse(token, span);
            None
        }
    }

    /// The next identifier, recording an error for each other lexeme before it. `None` at
    /// the end of input.
    fn until_ident(&mut self) -> (r: Option<BSpan>)
        requires
            old(self).wf(),
        ensures
            final(self).wf(),
            final(self).text() == old(self).text(),
            final(self).source() == old(self).source(),
            final(self).terms == old(self).terms,
            r matches Some(s) ==> {
                &&& final(self).curr is None
                &&& old(self).next_from() <= s.from < s.to
                &&& s.to == final(self).next_from()
                &&& char_span(final(self).text(), s.from as int, s.to as int)
                &&& final(self).measure() < old(self).measure()
            },
            r is None ==> final(self).measure() <= old(self).measure(),
            (final(self).progress(), r, final(self).pos()) == crate::model::until_ident(
                old(self).text(),
                old(self).pos(),
                old(self).progress(),
            ),
            old(self).pos() <= final(self).pos() <= final(self).text().len(),
            r is Some ==> old(self).pos() < final(self).pos(),
    {
        proof {
            self.lemma_pos();
        }
        loop
            invariant
                self.wf(),
                self.text() == old(self).text(),
                self.source() == old(self).source(),
                self.terms == old(self).terms,
                old(self).next_from() <= self.next_from(),
                self.measure() <= old(self).measure(),
                crate::model::until_ident(self.text(), old(self).pos(), old(self).progress())
                    == crate::model::until_ident(self.text(), self.pos(), self.progress()),
                old(self).pos() <= self.pos() <= self.text().len(),
            decreases self.measure(),
        {
            let (token, span) = self.until_non_wc();
            match token.kind {
                LexKind::Ident => {
                    return Some(span);
                },
                LexKind::Eof => {
                    return None;
                },
                _ => self.err_expected(span, rule_expected()),
            }
        }
    }
}


impl Cbnf {
    /// Collects every rule of `value`. A rule whose name came before goes to `extras`.
    pub fn from(value: Parser<'_>) -> (r: Cbnf)
        requires
            value.wf(),
        ensures
            r.wf(),
            idents_on_chars(r.terms@, value.text()),
            forall|i: int|
                0 <= i < rule_entries(r.rules).len() ==> {
                    let e = #[trigger] rule_entries(r.rules)[i];
                    &&& char_span(value.text(), e.1.name.from as int, e.1.name.to as int)
                    &&& e.0 == span_text(value.text(), e.1.name.from as int, e.1.name.to as int)
                },
            forall|i: int|
                0 <= i < r.extras@.len() ==> {
                    let x = #[trigger] r.extras@[i];
                    &&& char_span(value.text(), x.name.from as int, x.name.to as int)
                    &&& exists|k: int|
                        0 <= k < rule_entries(r.rules).len() && (#[trigger] rule_entries(
                            r.rules,
                        )[k]).0 == span_text(value.text(), x.name.from as int, x.name.to as int)
                },
            ({
                let (p, named, extras) = crate::model::collect(
                    value.text(),
                    value.pos(),
                    value.progress(),
                    Seq::empty(),
                    Seq::empty(),
                );
                &&& r.terms@ == p.terms
                &&& view_errors(r.errors@) == p.errors
                &&& r.comments@ == p.comments
                &&& r.docs@ == p.docs
                &&& rule_entries(r.rules) == named
                &&& r.extras@ == extras
            }),
    {
        let mut value = value;
        let ghost text = value.text();
        let mut extras: Vec<Rule> = Vec::new();
        let mut rules = rules_new();
        let ghost goal = crate::model::collect(text, value.pos(), value.progress(), Seq::empty(), Seq::empty());
        proof {
            value.lemma_pos();
            assert(rule_entries(rules) =~= Seq::<(Seq<char>, Rule)>::empty());
            assert(extras@ =~= Seq::<Rule>::empty());
        }
        loop
            invariant_except_break
                goal == crate::model::collect(text, value.pos(), value.progress(), rule_entries(rules), extras@),
            invariant
                value.wf(),
                value.text() == text,
                keys_unique(rule_entries(rules)),
                forall|i: int|
                    0 <= i < rule_entries(rules).len() ==> {
                        let e = #[trigger] rule_entries(rules)[i];
                        &&& e.1.ok_in(value.arena())
                        &&& e.1.expr is Some
                        &&& char_span(text, e.1.name.from as int, e.1.name.to as int)
                        &&& e.0 == span_text(text, e.1.name.from as int, e.1.name.to as int)
                    },
                forall|i: int|
                    0 <= i < extras@.len() ==> {
                        let x = #[trigger] extras@[i];
                        &&& x.ok_in(value.arena())
                        &&& x.expr is Some
                        &&& char_span(text, x.name.from as int, x.name.to as int)
                        &&& exists|k: int|
                            0 <= k < rule_entries(rules).len() && (#[trigger] rule_entries(
                                rules,
                            )[k]).0 == span_text(text, x.name.from as int, x.name.to as int)
                    },
            ensures
                goal == (value.progress(), rule_entries(rules), extras@),
                value.wf(),
                value.text() == text,
                keys_unique(rule_entries(rules)),
                forall|i: int|
                    0 <= i < rule_entries(rules).len() ==> {
                        let e = #[trigger] rule_entries(rules)[i];
                        &&& e.1.ok_in(value.arena())
                        &&& e.1.expr is Some
                        &&& char_span(text, e.1.name.from as int, e.1.name.to as int)
                        &&& e.0 == span_text(text, e.1.name.from as int, e.1.name.to as int)
                    },
                forall|i: int|
                    0 <= i < extras@.len() ==> {
                        let x = #[trigger] extras@[i];
                        &&& x.ok_in(value.arena())
                        &&& x.expr is Some
                        &&& char_span(text, x.name.from as int, x.name.to as int)
                        &&& exists|k: int|
                            0 <= k < rule_entries(rules).len() && (#[trigger] rule_entries(
                                rules,
                            )[k]).0 == span_text(text, x.name.from as int, x.name.to as int)
                    },
            decreases value.measure(),
        {
            let ghost before = value.arena();
            let ghost b0 = value.pos();
            let ghost p0 = value.progress();
            let ghost n0 = rule_entries(rules);
            let ghost x0 = extras@;
            let rule = match value.next_rule() {
                Some(rule) => rule,
                None => {
                    proof {
                        assert(crate::model::collect(text, b0, p0, n0, x0) == (value.progress(), n0, x0));
                    }
                    break;
                },
            };
            proof {
                assert forall|i: int| 0 <= i < rule_entries(rules).len() implies (#[trigger] rule_entries(rules)[i]).1.ok_in(value.arena()) by {
                    lemma_ok_in_extend(rule_entries(rules)[i].1, before, value.arena());
                }
                assert forall|i: int| 0 <= i < extras@.len() implies (#[trigger] extras@[i]).ok_in(value.arena()) by {
                    lemma_ok_in_extend(extras@[i], before, value.arena());
                }
            }
            let name = value.slice(AsBSpan::Span(rule.name));
            let ghost key = span_text(text, rule.name.from as int, rule.name.to as int);
            let ghost known = exists|k: int| 0 <= k < n0.len() && (#[trigger] n0[k]).0 == key;
            match rules_index_of(&rules, name) {
                Some(k) => {
                    extras.push(rule);
                    proof {
                        assert(rule_entries(rules)[k as int].0 == span_text(text, rule.name.from as int, rule.name.to as int));
                        assert forall|i: int| 0 <= i < extras@.len() implies {
                            let x = #[trigger] extras@[i];
                            &&& x.ok_in(value.arena())
                            &&& x.expr is Some
                            &&& char_span(text, x.name.from as int, x.name.to as int)
                            &&& exists|k: int|
                                0 <= k < rule_entries(rules).len() && (#[trigger] rule_entries(
                                    rules,
                                )[k]).0 == span_text(text, x.name.from as int, x.name.to as int)
                        } by {
                            if i == extras@.len() - 1 {
                                assert(extras@[i] == rule);
                            }
                        }
                    }
                },
                None => {
                    let ghost old_rules = rule_entries(rules);
                    rules_insert(&mut rules, name.to_owned(), rule);
                    proof {
                        let e = rule_entries(rules);
                        assert forall|i: int, j: int| 0 <= i < j < e.len() implies (#[trigger] e[i]).0 != (#[trigger] e[j]).0 by {
                            if j == e.len() - 1 {
                                assert(e[i] == old_rules[i]);
                            } else {
                                assert(e[i] == old_rules[i] && e[j] == old_rules[j]);
                            }
                        }
                        assert forall|i: int| 0 <= i < e.len() implies {
                            let x = #[trigger] e[i];
                            &&& x.1.ok_in(value.arena())
                            &&& x.1.expr is Some
                            &&& char_span(text, x.1.name.from as int, x.1.name.to as int)
                            &&& x.0 == span_text(text, x.1.name.from as int, x.1.name.to as int)
                        } by {
                            if i < old_rules.len() {
                                assert(e[i] == old_rules[i]);
                            }
                        }
                        assert forall|i: int| 0 <= i < extras@.len() implies {
                            let x = #[trigger] extras@[i];
                            exists|k: int|
                                0 <= k < e.len() && (#[trigger] e[k]).0 == span_text(text, x.name.from as int, x.name.to as int)
                        } by {
                            let x = extras@[i];
                            let k = choose|k: int|
                                0 <= k < old_rules.len() && (#[trigger] old_rules[k]).0 == span_text(text, x.name.from as int, x.name.to as int);
                            assert(e[k] == old_rules[k]);
                        }
                    }
                },
            }
            proof {
                assert(known ==> extras@ == x0.push(rule) && rule_entries(rules) == n0);
                assert(!known ==> extras@ == x0 && rule_entries(rules) == n0.push((key, rule)));
                assert(crate::model::collect(text, b0, p0, n0, x0) == crate::model::collect(
                    text,
                    value.pos(),
                    value.progress(),
                    rule_entries(rules),
                    extras@,
                ));
            }
        }
        Cbnf {
            rules,
            extras,
            comments: value.comments,
            docs: value.docs,
            errors: value.errors,
            terms: value.terms,
        }
    }

    /// Parses `input`. Parsing always completes: malformed input becomes errors.
    pub fn parse(input: &str) -> (r: Cbnf)
        requires
            byte_len(input@) <= u32::MAX,
        ensures
            r.wf(),
            idents_on_chars(r.terms@, input@),
            forall|i: int|
                0 <= i < rule_entries(r.rules).len() ==> {
                    let e = #[trigger] rule_entries(r.rules)[i];
                    &&& char_span(input@, e.1.name.from as int, e.1.name.to as int)
                    &&& e.0 == span_text(input@, e.1.name.from as int, e.1.name.to as int)
                },
            forall|i: int|
                0 <= i < r.extras@.len() ==> {
                    let x = #[trigger] r.extras@[i];
                    &&& char_span(input@, x.name.from as int, x.name.to as int)
                    &&& exists|k: int|
                        0 <= k < rule_entries(r.rules).len() && (#[trigger] rule_entries(
                            r.rules,
                        )[k]).0 == span_text(input@, x.name.from as int, x.name.to as int)
                },
            crate::model::parse_of(r, input@),
    {
        let parser = Parser::new(input);
        proof {
            assert(view_errors(Seq::<Error>::empty()) =~= Seq::<(BSpan, ErrorView)>::empty());
        }
        Cbnf::from(parser)
    }
}

/// The text that a byte span of the source covers.
pub(crate) fn slice_source<'a>(src: &'a str, s: BSpan) -> (r: &'a str)
    requires
        char_span(src@, s.from as int, s.to as int),
    ensures
        r@ == crate::text::span_text(src@, s.from as int, s.to as int),
{
    let ghost t = src@;
    let ghost i = crate::text::char_index(t, s.from as int);
    let ghost j = crate::text::char_index(t, s.to as int);
    proof {
        if i > j {
            lemma_offset_strict(t, j, i);
        }
        lemma_offset_mono(t, j, t.len() as int);
        assert(t.take(t.len() as int) =~= t);
        crate::text::lemma_offset_boundary(t, i);
        crate::text::lemma_offset_boundary(t, j);
        crate::text::lemma_offset_slice(t, i, j);
    }
    let r = s.slice(src);
    proof {
        vstd::utf8::encode_utf8_decode_utf8(r@);
        vstd::utf8::encode_utf8_decode_utf8(t.subrange(i, j));
    }
    r
}

} // verus!
