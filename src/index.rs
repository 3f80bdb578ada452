//! The document index: one parsed snapshot of a document, with its line table, lookups by
//! position, references, diagnostics, completions and renames.
use crate::ast::{idents_on_chars, Cbnf, Comment, DocComment, Rule, Term};
use crate::error::{spec_message, Error};
use crate::rule_map::{keys_unique, rule_entries, rules_get_index, rules_index_of, rules_len};
use crate::span::BSpan;
use crate::text::{byte_len, char_span, span_text};
use crate::util::{spec_valid_id, valid_id};
use indexmap::IndexMap;
use vstd::prelude::*;
use vstd::string::StringSliceAdditionalSpecFns;
use vstd::utf8::encode_utf8;

verus! {

/// A 0-based line and column, as the editor protocol counts them.
#[derive(Debug, Default, Clone, Copy, PartialEq, Eq, Structural)]
pub struct Position {
    pub line: u32,
    pub character: u32,
}

/// A range of positions, end exclusive.
#[derive(Debug, Default, Clone, Copy, PartialEq, Eq, Structural)]
pub struct Range {
    pub start: Position,
    pub end: Position,
}

/// A message about a range of the document.
#[derive(Debug, Clone)]
pub struct Diagnostic {
    pub range: Range,
    pub message: String,
}

/// Text that replaces a range.
#[derive(Debug, Clone)]
pub struct TextEdit {
    pub range: Range,
    pub new_text: String,
}

/// Why a rename was refused.
#[derive(Debug, Clone, Copy, PartialEq, Eq, Structural)]
pub enum RenameError {
    /// The new name is not an identifier.
    InvalidName,
}

/// What a document computes once, when it is built.
#[derive(Debug, Default)]
pub struct Cache {
    pub diagnostics: Vec<Diagnostic>,
    /// One entry per rule name, in order.
    pub completions: Vec<String>,
}

/// The character that a meta name starts with.
pub const META: char = '$';

/// The line break offsets of `bytes`: in order, each a `\n`, and every `\n` among them.
pub open spec fn break_table(b: Seq<u32>, bytes: Seq<u8>) -> bool {
    &&& sorted(b)
    &&& forall|k: int| 0 <= k < b.len() ==> (#[trigger] b[k]) < bytes.len() && bytes[b[k] as int] == 10
    &&& forall|p: int| 0 <= p < bytes.len() && bytes[p] == 10 ==> exists|k: int| 0 <= k < b.len() && #[trigger] b[k] == p
}

/// Strictly increasing.
pub open spec fn sorted(b: Seq<u32>) -> bool {
    forall|i: int, j: int| 0 <= i < j < b.len() ==> (#[trigger] b[i]) < (#[trigger] b[j])
}

/// The line of byte offset `o`: the number of line breaks at or before it.
pub open spec fn line_of(b: Seq<u32>, o: int) -> nat
    decreases b.len(),
{
    if b.len() == 0 {
        0
    } else if b.last() <= o {
        b.len()
    } else {
        line_of(b.drop_last(), o)
    }
}

/// The position of byte offset `o`: its line, and its 0-based column after the line's break.
pub open spec fn position_of(b: Seq<u32>, o: int) -> Position {
    let line = line_of(b, o);
    Position {
        line: line as u32,
        character: (if line == 0 {
            o
        } else if o > b[line - 1] {
            o - b[line - 1] - 1
        } else {
            0
        }) as u32,
    }
}

/// The byte offset of a position.
pub open spec fn offset_of(b: Seq<u32>, pos: Position) -> int {
    if pos.line == 0 {
        pos.character as int
    } else {
        b[pos.line - 1] + pos.character + 1
    }
}

/// The range of a byte span.
pub open spec fn range_of(b: Seq<u32>, span: BSpan) -> Range {
    Range { start: position_of(b, span.from as int), end: position_of(b, span.to as int) }
}

/// The breaks before the line of `o` are at or before it; the one after is past it.
pub proof fn lemma_line_of(b: Seq<u32>, o: int)
    requires
        sorted(b),
    ensures
        line_of(b, o) <= b.len(),
        forall|k: int| 0 <= k < line_of(b, o) ==> b[k] <= o,
        line_of(b, o) < b.len() ==> b[line_of(b, o) as int] > o,
    decreases b.len(),
{
    if b.len() > 0 {
        if b.last() <= o {
            assert forall|k: int| 0 <= k < b.len() implies b[k] <= o by {
                if k < b.len() - 1 {
                    assert(b[k] < b[b.len() - 1]);
                }
            }
        } else {
            let d = b.drop_last();
            assert(sorted(d)) by {
                assert forall|i: int, j: int| 0 <= i < j < d.len() implies (#[trigger] d[i]) < (
                #[trigger] d[j]) by {
                    assert(d[i] == b[i] && d[j] == b[j]);
                }
            }
            lemma_line_of(d, o);
            let r = line_of(d, o);
            assert forall|k: int| 0 <= k < r implies b[k] <= o by {
                assert(d[k] == b[k]);
            }
            if r < d.len() {
                assert(d[r as int] == b[r as int]);
            }
        }
    }
}

/// A byte offset that is not itself a line break comes back from its position: converting
/// it to a line and column and back gives it again.
pub proof fn line_col_round_trip(b: Seq<u32>, o: int)
    requires
        sorted(b),
        b.len() <= u32::MAX,
        0 <= o <= u32::MAX,
        forall|k: int| 0 <= k < b.len() ==> #[trigger] b[k] != o,
    ensures
        offset_of(b, position_of(b, o)) == o,
        point_of(b, position_of(b, o)) == Some(o as u32),
{
    lemma_line_of(b, o);
    let line = line_of(b, o);
    if line > 0 {
        assert(b[line - 1] <= o);
        assert(b[line - 1] != o);
    }
}

/// The offsets of the line breaks of `source`.
pub fn find_lines(source: &str) -> (r: Vec<u32>)
    requires
        source.spec_bytes().len() <= u32::MAX,
    ensures
        break_table(r@, source.spec_bytes()),
{
    let bytes = source.as_bytes();
    let mut lines: Vec<u32> = Vec::new();
    let mut i: usize = 0;
    while i < bytes.len()
        invariant
            bytes@ == source.spec_bytes(),
            bytes@.len() <= u32::MAX,
            i <= bytes@.len(),
            sorted(lines@),
            forall|k: int| 0 <= k < lines@.len() ==> (#[trigger] lines@[k]) < i && bytes@[lines@[k] as int] == 10,
            forall|p: int| 0 <= p < i && bytes@[p] == 10 ==> exists|k: int| 0 <= k < lines@.len() && #[trigger] lines@[k] == p,
        decreases bytes@.len() - i,
    {
        if bytes[i] == 10 {
            let ghost prev = lines@;
            lines.push(i as u32);
            proof {
                assert forall|p: int| 0 <= p < i + 1 && bytes@[p] == 10 implies exists|k: int| 0 <= k < lines@.len() && #[trigger] lines@[k] == p by {
                    if p < i {
                        let k = choose|k: int| 0 <= k < prev.len() && #[trigger] prev[k] == p;
                        assert(lines@[k] == prev[k]);
                    } else {
                        assert(lines@[prev.len() as int] == p);
                    }
                }
            }
        }
        i += 1;
    }
    lines
}

/// The line of byte offset `target`: the index of the first break past it.
pub fn find_line(lbs: &[u32], target: u32) -> (r: u32)
    requires
        sorted(lbs@),
        lbs@.len() <= u32::MAX,
    ensures
        r == line_of(lbs@, target as int),
{
    let mut lo: usize = 0;
    let mut hi: usize = lbs.len();
    while lo < hi
        invariant
            sorted(lbs@),
            lo <= hi <= lbs@.len(),
            forall|k: int| 0 <= k < lo ==> lbs@[k] <= target,
            forall|k: int| hi <= k < lbs@.len() ==> lbs@[k] > target,
        decreases hi - lo,
    {
        let mid = lo + (hi - lo) / 2;
        if lbs[mid] > target {
            proof {
                assert forall|k: int| mid <= k < lbs@.len() implies lbs@[k] > target by {
                    if k > mid {
                        assert(lbs@[mid as int] < lbs@[k]);
                    }
                }
            }
            hi = mid;
        } else {
            proof {
                assert forall|k: int| 0 <= k < mid + 1 implies lbs@[k] <= target by {
                    if k < mid {
                        assert(lbs@[k] < lbs@[mid as int]);
                    }
                }
            }
            lo = mid + 1;
        }
    }
    proof {
        lemma_line_of(lbs@, target as int);
        let r = line_of(lbs@, target as int);
        if r < lo {
            assert(lbs@[r as int] <= target);
        } else if r > lo {
            assert(lbs@[lo as int] > target);
        }
    }
    lo as u32
}

/// The position of byte offset `o`.
fn position(breaks: &[u32], o: u32) -> (r: Position)
    requires
        sorted(breaks@),
        breaks@.len() <= u32::MAX,
    ensures
        r == position_of(breaks@, o as int),
{
    let line = find_line(breaks, o);
    proof {
        lemma_line_of(breaks@, o as int);
    }
    let character = if line == 0 {
        o
    } else if o > breaks[line as usize - 1] {
        o - breaks[line as usize - 1] - 1
    } else {
        0
    };
    Position { line, character }
}

/// The range of a byte span.
pub fn get_range(breaks: &[u32], span: BSpan) -> (r: Range)
    requires
        sorted(breaks@),
        breaks@.len() <= u32::MAX,
    ensures
        r == range_of(breaks@, span),
{
    Range { start: position(breaks, span.from), end: position(breaks, span.to) }
}

/// Only `nil` is a built-in name.
pub fn is_keyword(source: &str) -> (r: bool)
    ensures
        r == (source@ == "nil"@),
{
    same_text(source, "nil")
}

/// Whether two texts are equal.
fn same_text(a: &str, b: &str) -> (r: bool)
    ensures
        r == (a@ == b@),
{
    let x = a.as_bytes();
    let y = b.as_bytes();
    proof {
        vstd::utf8::encode_utf8_decode_utf8(a@);
        vstd::utf8::encode_utf8_decode_utf8(b@);
        assert(a@ == b@ ==> x@ == y@);
    }
    if x.len() != y.len() {
        return false;
    }
    let mut i: usize = 0;
    while i < x.len()
        invariant
            x@.len() == y@.len(),
            i <= x@.len(),
            forall|k: int| 0 <= k < i ==> x@[k] == y@[k],
            a@ == b@ ==> x@ == y@,
            x@ == encode_utf8(a@),
            y@ == encode_utf8(b@),
        decreases x@.len() - i,
    {
        if x[i] != y[i] {
            return false;
        }
        i += 1;
    }
    assert(x@ =~= y@);
    proof {
        vstd::utf8::encode_utf8_decode_utf8(a@);
        vstd::utf8::encode_utf8_decode_utf8(b@);
    }
    true
}

/// The spans of the identifier terms of `t` whose text in `text` is `name`, in order.
pub open spec fn idents_named(t: Seq<Term>, text: Seq<char>, name: Seq<char>) -> Seq<BSpan>
    decreases t.len(),
{
    if t.len() == 0 {
        Seq::empty()
    } else {
        let rest = idents_named(t.drop_last(), text, name);
        let x = t.last();
        if x is Ident && span_text(text, x.spec_span().from as int, x.spec_span().to as int)
            == name {
            rest.push(x.spec_span())
        } else {
            rest
        }
    }
}

/// A span contains a byte offset.
pub open spec fn spans(s: BSpan, pos: int) -> bool {
    s.from <= pos < s.to
}

/// A term that is no container: an identifier or a literal.
pub open spec fn is_leaf(t: Term) -> bool {
    t is Ident || t is Literal
}


/// The first named rule whose name spans byte offset `pos`.
pub open spec fn first_rule_at(e: Seq<(Seq<char>, Rule)>, pos: int) -> Option<Rule>
    decreases e.len(),
{
    if e.len() == 0 {
        None
    } else if spans(e[0].1.name, pos) {
        Some(e[0].1)
    } else {
        first_rule_at(e.drop_first(), pos)
    }
}

/// The first identifier or literal term whose span holds byte offset `pos`: the innermost
/// term there, as containers hold only later terms.
pub open spec fn first_leaf_at(t: Seq<Term>, pos: int) -> Option<Term>
    decreases t.len(),
{
    if t.len() == 0 {
        None
    } else if is_leaf(t[0]) && spans(t[0].spec_span(), pos) {
        Some(t[0])
    } else {
        first_leaf_at(t.drop_first(), pos)
    }
}

/// The identifier terms of `t` whose text is no rule name of `e` and not `nil`.
pub open spec fn unknown_idents(t: Seq<Term>, text: Seq<char>, e: Seq<(Seq<char>, Rule)>) -> Seq<BSpan>
    decreases t.len(),
{
    if t.len() == 0 {
        Seq::empty()
    } else {
        let rest = unknown_idents(t.drop_last(), text, e);
        let x = t.last();
        let name = span_text(text, x.spec_span().from as int, x.spec_span().to as int);
        if x is Ident && !(exists|k: int| 0 <= k < e.len() && (#[trigger] e[k]).0 == name) && name
            != "nil"@ {
            rest.push(x.spec_span())
        } else {
            rest
        }
    }
}

/// The byte offset of a position, if the position is in the line table and fits.
pub open spec fn point_of(b: Seq<u32>, pos: Position) -> Option<u32> {
    if pos.line == 0 {
        Some(pos.character)
    } else if pos.line <= b.len() && b[pos.line - 1] + pos.character + 1 <= u32::MAX {
        Some((b[pos.line - 1] + pos.character + 1) as u32)
    } else {
        None
    }
}

/// `a + b`, or `u32::MAX` if that is more.
pub open spec fn clamp_add(a: int, b: int) -> u32 {
    if a + b <= u32::MAX {
        (a + b) as u32
    } else {
        u32::MAX
    }
}

/// The range of an edit of a name: past the leading meta character when there is one, and
/// kept on the start's line.
pub open spec fn edit_range(r: Range, meta: bool, len: int) -> Range {
    if !meta {
        r
    } else {
        let start = Position { line: r.start.line, character: clamp_add(r.start.character as int, 1) };
        if r.end.line != r.start.line {
            Range { start, end: Position { line: start.line, character: clamp_add(start.character as int, len) } }
        } else {
            Range { start, end: r.end }
        }
    }
}

/// One parsed snapshot of a document.
pub struct Document {
    source: String,
    line_breaks: Vec<u32>,
    rules: IndexMap<String, Rule>,
    comments: Vec<Comment>,
    docs: Vec<DocComment>,
    errors: Vec<Error>,
    terms: Vec<Term>,
    cache: Cache,
}

impl Document {
    /// The snapshot agrees with its source: the line table, the identifier terms and the
    /// rule names all index the source text.
    pub closed spec fn wf(&self) -> bool {
        &&& byte_len(self.source@) <= u32::MAX
        &&& break_table(self.line_breaks@, encode_utf8(self.source@))
        &&& self.line_breaks@.len() <= u32::MAX
        &&& idents_on_chars(self.terms@, self.source@)
        &&& keys_unique(rule_entries(self.rules))
        &&& forall|i: int|
            0 <= i < rule_entries(self.rules).len() ==> {
                let e = #[trigger] rule_entries(self.rules)[i];
                &&& char_span(self.source@, e.1.name.from as int, e.1.name.to as int)
                &&& e.0 == span_text(self.source@, e.1.name.from as int, e.1.name.to as int)
            }
    }

    /// The source text.
    pub closed spec fn text(&self) -> Seq<char> {
        self.source@
    }

    /// The offsets of the line breaks.
    pub closed spec fn breaks(&self) -> Seq<u32> {
        self.line_breaks@
    }

    /// The term arena.
    pub closed spec fn arena(&self) -> Seq<Term> {
        self.terms@
    }

    /// The named rules, in order.
    pub closed spec fn entries(&self) -> Seq<(Seq<char>, Rule)> {
        rule_entries(self.rules)
    }

    /// The parse errors.
    pub closed spec fn parse_errors(&self) -> Seq<Error> {
        self.errors@
    }

    /// The plain comments.
    pub closed spec fn comment_list(&self) -> Seq<Comment> {
        self.comments@
    }

    /// The doc comments.
    pub closed spec fn doc_list(&self) -> Seq<DocComment> {
        self.docs@
    }

    /// The cached diagnostics.
    pub closed spec fn diagnostic_list(&self) -> Seq<Diagnostic> {
        self.cache.diagnostics@
    }

    /// The cached completions.
    pub closed spec fn completion_list(&self) -> Seq<String> {
        self.cache.completions@
    }

    /// The text that a span of the source covers.
    pub open spec fn span_str(&self, s: BSpan) -> Seq<char> {
        span_text(self.text(), s.from as int, s.to as int)
    }

    pub fn source(&self) -> (r: &str)
        ensures
            r@ == self.text(),
    {
        self.source.as_str()
    }

    pub fn line_breaks(&self) -> (r: &[u32])
        ensures
            r@ == self.breaks(),
    {
        self.line_breaks.as_slice()
    }

    pub fn errors(&self) -> (r: &[Error])
        ensures
            r@ == self.parse_errors(),
    {
        self.errors.as_slice()
    }

    pub fn comments(&self) -> (r: &[Comment])
        ensures
            r@ == self.comment_list(),
    {
        self.comments.as_slice()
    }

    pub fn docs(&self) -> (r: &[DocComment])
        ensures
            r@ == self.doc_list(),
    {
        self.docs.as_slice()
    }

    pub fn terms(&self) -> (r: &[Term])
        ensures
            r@ == self.arena(),
    {
        self.terms.as_slice()
    }

    pub fn rules(&self) -> (r: &IndexMap<String, Rule>)
        ensures
            rule_entries(*r) == self.entries(),
    {
        &self.rules
    }

    /// The diagnostics: the parse errors, then the unknown terms.
    pub fn diagnostics(&self) -> (r: &[Diagnostic])
        ensures
            r@ == self.diagnostic_list(),
    {
        self.cache.diagnostics.as_slice()
    }

    /// One completion per rule name, in order.
    pub fn completions(&self) -> (r: &[String])
        ensures
            r@ == self.completion_list(),
    {
        self.cache.completions.as_slice()
    }
}


/// A strictly increasing table below `n` has at most `n` entries.
proof fn lemma_sorted_len(b: Seq<u32>, n: int)
    requires
        sorted(b),
        0 <= n,
        forall|k: int| 0 <= k < b.len() ==> (#[trigger] b[k]) < n,
    ensures
        b.len() <= n,
{
    if b.len() > 0 {
        let last = b.len() - 1;
        lemma_sorted_at_least(b, last);
        assert(b[last] < n);
        assert(last < n);
    }
}

proof fn lemma_sorted_at_least(b: Seq<u32>, k: int)
    requires
        sorted(b),
        0 <= k < b.len(),
    ensures
        b[k] >= k,
    decreases k,
{
    if k > 0 {
        lemma_sorted_at_least(b, k - 1);
        assert(b[k - 1] < b[k]);
    }
}

impl Document {
    /// Parses `source` and indexes it.
    pub fn new(source: String) -> (r: Document)
        requires
            byte_len(source@) <= u32::MAX,
        ensures
            r.wf(),
            r.text() == source@,
            crate::ast::arena_ok(r.arena()),
            ({
                let (p, named, _) = crate::model::parse_model(source@);
                &&& r.arena() == p.terms
                &&& crate::model::view_errors(r.parse_errors()) == p.errors
                &&& r.comment_list() == p.comments
                &&& r.doc_list() == p.docs
                &&& r.entries() == named
            }),
            r.diagnostic_list().len() == r.parse_errors().len() + unknown_idents(
                r.arena(),
                r.text(),
                r.entries(),
            ).len(),
            forall|i: int|
                0 <= i < r.parse_errors().len() ==> {
                    let d = #[trigger] r.diagnostic_list()[i];
                    &&& d.range == range_of(r.breaks(), r.parse_errors()[i].span)
                    &&& d.message@ == spec_message(r.parse_errors()[i].kind)
                },
            forall|k: int|
                0 <= k < unknown_idents(r.arena(), r.text(), r.entries()).len() ==> {
                    let d = #[trigger] r.diagnostic_list()[r.parse_errors().len() + k];
                    &&& d.range == range_of(
                        r.breaks(),
                        unknown_idents(r.arena(), r.text(), r.entries())[k],
                    )
                    &&& d.message@ == "Unknown term"@
                },
            r.completion_list().len() == r.entries().len(),
            forall|i: int|
                0 <= i < r.entries().len() ==> (#[trigger] r.completion_list()[i])@
                    == r.entries()[i].0,
    {
        let tokens = Cbnf::parse(source.as_str());
        let line_breaks = find_lines(source.as_str());
        proof {
            lemma_sorted_len(line_breaks@, byte_len(source@) as int);
        }
        let ghost b = line_breaks@;
        let mut diagnostics: Vec<Diagnostic> = Vec::new();
        let mut i: usize = 0;
        while i < tokens.errors.len()
            invariant
                i <= tokens.errors@.len(),
                b == line_breaks@,
                sorted(b),
                b.len() <= u32::MAX,
                diagnostics@.len() == i,
                forall|j: int|
                    0 <= j < i ==> {
                        let d = #[trigger] diagnostics@[j];
                        &&& d.range == range_of(b, tokens.errors@[j].span)
                        &&& d.message@ == spec_message(tokens.errors@[j].kind)
                    },
            decreases tokens.errors@.len() - i,
        {
            let e = &tokens.errors[i];
            let d = Diagnostic { range: get_range(line_breaks.as_slice(), e.span), message: e.message() };
            diagnostics.push(d);
            i += 1;
        }
        let n_errors = i;
        let mut k: usize = 0;
        while k < tokens.terms.len()
            invariant
                k <= tokens.terms@.len(),
                n_errors == tokens.errors@.len(),
                b == line_breaks@,
                sorted(b),
                b.len() <= u32::MAX,
                idents_on_chars(tokens.terms@, source@),
                diagnostics@.len() == n_errors + unknown_idents(
                    tokens.terms@.take(k as int),
                    source@,
                    rule_entries(tokens.rules),
                ).len(),
                forall|j: int|
                    0 <= j < n_errors ==> {
                        let d = #[trigger] diagnostics@[j];
                        &&& d.range == range_of(b, tokens.errors@[j].span)
                        &&& d.message@ == spec_message(tokens.errors@[j].kind)
                    },
                forall|j: int|
                    0 <= j < unknown_idents(
                        tokens.terms@.take(k as int),
                        source@,
                        rule_entries(tokens.rules),
                    ).len() ==> {
                        let d = #[trigger] diagnostics@[n_errors + j];
                        &&& d.range == range_of(
                            b,
                            unknown_idents(
                                tokens.terms@.take(k as int),
                                source@,
                                rule_entries(tokens.rules),
                            )[j],
                        )
                        &&& d.message@ == "Unknown term"@
                    },
            decreases tokens.terms@.len() - k,
        {
            let ghost t = tokens.terms@;
            let ghost e = rule_entries(tokens.rules);
            proof {
                assert(t.take(k + 1).drop_last() =~= t.take(k as int));
                assert(t.take(k + 1).last() == t[k as int]);
            }
            let ghost prev = diagnostics@;
            match tokens.terms[k] {
                Term::Ident(span) => {
                    let name = crate::parser::slice_source(source.as_str(), span);
                    let known = match rules_index_of(&tokens.rules, name) {
                        Some(_) => true,
                        None => false,
                    };
                    if !known && !is_keyword(name) {
                        proof {
                            reveal_strlit("nil");
                        }
                        let d = Diagnostic { range: get_range(line_breaks.as_slice(), span), message: String::from_str("Unknown term") };
                        diagnostics.push(d);
                        proof {
                            assert forall|j: int| 0 <= j < n_errors implies {
                                let d = #[trigger] diagnostics@[j];
                                &&& d.range == range_of(b, tokens.errors@[j].span)
                                &&& d.message@ == spec_message(tokens.errors@[j].kind)
                            } by {
                                assert(diagnostics@[j] == prev[j]);
                            }
                            let u = unknown_idents(t.take(k + 1), source@, e);
                            assert forall|j: int| 0 <= j < u.len() implies {
                                let d = #[trigger] diagnostics@[n_errors + j];
                                &&& d.range == range_of(b, u[j])
                                &&& d.message@ == "Unknown term"@
                            } by {
                                if j < u.len() - 1 {
                                    assert(diagnostics@[n_errors + j] == prev[n_errors + j]);
                                }
                            }
                        }
                    } else {
                        proof {
                            if known {
                                let idx = choose|idx: int| 0 <= idx < e.len() && e[idx].0 == name@;
                                assert(e[idx].0 == span_text(source@, span.from as int, span.to as int));
                            }
                        }
                    }
                },
                _ => {},
            }
            k += 1;
        }
        proof {
            assert(tokens.terms@.take(tokens.terms@.len() as int) =~= tokens.terms@);
        }
        let mut completions: Vec<String> = Vec::new();
        let n = rules_len(&tokens.rules);
        let mut i: usize = 0;
        while i < n
            invariant
                i <= n,
                n == rule_entries(tokens.rules).len(),
                completions@.len() == i,
                forall|j: int|
                    0 <= j < i ==> (#[trigger] completions@[j])@ == rule_entries(tokens.rules)[j].0,
            decreases n - i,
        {
            let (key, _) = rules_get_index(&tokens.rules, i);
            completions.push(key.as_str().to_owned());
            i += 1;
        }
        Document {
            source,
            line_breaks,
            rules: tokens.rules,
            comments: tokens.comments,
            docs: tokens.docs,
            errors: tokens.errors,
            terms: tokens.terms,
            cache: Cache { diagnostics, completions },
        }
    }

    /// The byte offset of a position; `None` past the last line or past the offsets a
    /// `u32` holds.
    pub fn get_point(&self, pos: Position) -> (r: Option<u32>)
        requires
            self.wf(),
        ensures
            r == point_of(self.breaks(), pos),
    {
        if pos.line == 0 {
            Some(pos.character)
        } else if (pos.line as usize) <= self.line_breaks.len() {
            let b = self.line_breaks[pos.line as usize - 1];
            if pos.character < u32::MAX - b {
                Some(b + pos.character + 1)
            } else {
                None
            }
        } else {
            None
        }
    }

    /// The range of a byte span.
    pub fn get_range(&self, span: BSpan) -> (r: Range)
        requires
            self.wf(),
        ensures
            r == range_of(self.breaks(), span),
    {
        proof {
            assert(sorted(self.line_breaks@));
        }
        get_range(self.line_breaks.as_slice(), span)
    }

    /// The identifier terms whose text is `name`, in order.
    pub fn references(&self, name: &str) -> (r: Vec<BSpan>)
        requires
            self.wf(),
        ensures
            r@ == idents_named(self.arena(), self.text(), name@),
    {
        let mut out: Vec<BSpan> = Vec::new();
        let mut k: usize = 0;
        while k < self.terms.len()
            invariant
                self.wf(),
                k <= self.terms@.len(),
                out@ == idents_named(self.terms@.take(k as int), self.source@, name@),
            decreases self.terms@.len() - k,
        {
            let ghost t = self.terms@;
            proof {
                assert(t.take(k + 1).drop_last() =~= t.take(k as int));
                assert(t.take(k + 1).last() == t[k as int]);
            }
            match self.terms[k] {
                Term::Ident(span) => {
                    let text = crate::parser::slice_source(self.source.as_str(), span);
                    if same_text(text, name) {
                        out.push(span);
                    }
                },
                _ => {},
            }
            k += 1;
        }
        proof {
            assert(self.terms@.take(self.terms@.len() as int) =~= self.terms@);
        }
        out
    }

    /// The first named rule whose name spans `pos`.
    pub fn get_rule(&self, pos: u32) -> (r: Option<Rule>)
        requires
            self.wf(),
        ensures
            r == first_rule_at(self.entries(), pos as int),
    {
        let n = rules_len(&self.rules);
        let mut i: usize = 0;
        proof {
            assert(rule_entries(self.rules).skip(0) =~= rule_entries(self.rules));
        }
        while i < n
            invariant
                i <= n,
                n == rule_entries(self.rules).len(),
                first_rule_at(rule_entries(self.rules), pos as int) == first_rule_at(
                    rule_entries(self.rules).skip(i as int),
                    pos as int,
                ),
            decreases n - i,
        {
            let (_, rule) = rules_get_index(&self.rules, i);
            proof {
                let e = rule_entries(self.rules);
                assert(e.skip(i as int).drop_first() =~= e.skip(i + 1));
                assert(e.skip(i as int)[0] == e[i as int]);
            }
            if rule.name.from <= pos && pos < rule.name.to {
                return Some(*rule);
            }
            i += 1;
        }
        proof {
            assert(rule_entries(self.rules).skip(n as int) =~= Seq::<(Seq<char>, Rule)>::empty());
        }
        None
    }

    /// The innermost term at `pos`: the first identifier or literal whose span holds it.
    pub fn get_token(&self, pos: u32) -> (r: Option<Term>)
        requires
            self.wf(),
        ensures
            r == first_leaf_at(self.arena(), pos as int),
    {
        let mut k: usize = 0;
        proof {
            assert(self.terms@.skip(0) =~= self.terms@);
        }
        while k < self.terms.len()
            invariant
                k <= self.terms@.len(),
                first_leaf_at(self.terms@, pos as int) == first_leaf_at(
                    self.terms@.skip(k as int),
                    pos as int,
                ),
            decreases self.terms@.len() - k,
        {
            let t = self.terms[k];
            proof {
                assert(self.terms@.skip(k as int).drop_first() =~= self.terms@.skip(k + 1));
                assert(self.terms@.skip(k as int)[0] == self.terms@[k as int]);
            }
            let leaf = match t {
                Term::Ident(_) => true,
                Term::Literal(_) => true,
                _ => false,
            };
            let span = t.span();
            if leaf && span.from <= pos && pos < span.to {
                return Some(t);
            }
            k += 1;
        }
        proof {
            assert(self.terms@.skip(self.terms@.len() as int) =~= Seq::<Term>::empty());
        }
        None
    }
}


/// A first match is one of the sequence's rules.
proof fn lemma_first_rule_at(e: Seq<(Seq<char>, Rule)>, pos: int)
    ensures
        first_rule_at(e, pos) matches Some(r) ==> exists|i: int| 0 <= i < e.len() && (#[trigger] e[i]).1 == r,
    decreases e.len(),
{
    if e.len() > 0 && !spans(e[0].1.name, pos) {
        lemma_first_rule_at(e.drop_first(), pos);
        if first_rule_at(e.drop_first(), pos) is Some {
            let r = first_rule_at(e.drop_first(), pos)->0;
            let i = choose|i: int| 0 <= i < e.drop_first().len() && (#[trigger] e.drop_first()[i]).1 == r;
            assert(e[i + 1] == e.drop_first()[i]);
        }
    }
}

/// A first match is one of the arena's terms.
proof fn lemma_first_leaf_at(t: Seq<Term>, pos: int)
    ensures
        first_leaf_at(t, pos) matches Some(x) ==> exists|i: int| 0 <= i < t.len() && #[trigger] t[i] == x,
    decreases t.len(),
{
    if t.len() > 0 && !(is_leaf(t[0]) && spans(t[0].spec_span(), pos)) {
        lemma_first_leaf_at(t.drop_first(), pos);
        if first_leaf_at(t.drop_first(), pos) is Some {
            let x = first_leaf_at(t.drop_first(), pos)->0;
            let i = choose|i: int| 0 <= i < t.drop_first().len() && #[trigger] t.drop_first()[i] == x;
            assert(t[i + 1] == t.drop_first()[i]);
        }
    }
}

/// `a + b`, or `u32::MAX` if that is more.
fn clamped_add(a: u32, b: u32) -> (r: u32)
    ensures
        r == clamp_add(a as int, b as int),
{
    if a <= u32::MAX - b {
        a + b
    } else {
        u32::MAX
    }
}

/// The range of an edit of a name.
fn edit_range_exec(r: Range, meta: bool, len: u32) -> (out: Range)
    ensures
        out == edit_range(r, meta, len as int),
{
    if !meta {
        return r;
    }
    let start = Position { line: r.start.line, character: clamped_add(r.start.character, 1) };
    if r.end.line != r.start.line {
        // Keep the edit on its line, so that it does not take the line break.
        Range { start, end: Position { line: start.line, character: clamped_add(start.character, len) } }
    } else {
        Range { start, end: r.end }
    }
}

impl Document {
    /// What a rename at byte offset `point` renames: the name of the rule there, declared
    /// here, or else the identifier there.
    pub open spec fn rename_target(&self, point: u32) -> Option<(BSpan, bool)> {
        match first_rule_at(self.entries(), point as int) {
            Some(r) => Some((r.name, true)),
            None => match first_leaf_at(self.arena(), point as int) {
                Some(Term::Ident(s)) => Some((s, false)),
                _ => None,
            },
        }
    }

    /// The spans that a rename of the name at `span` edits: its references, then the
    /// declaration itself when it is one.
    pub open spec fn rename_spans(&self, span: BSpan, declared: bool) -> Seq<BSpan> {
        idents_named(self.arena(), self.text(), self.span_str(span)) + if declared {
            seq![span]
        } else {
            Seq::<BSpan>::empty()
        }
    }

    /// The text at `span` starts with the meta character.
    pub open spec fn is_meta(&self, span: BSpan) -> bool {
        self.span_str(span).len() > 0 && self.span_str(span)[0] == META
    }

    /// A rule or identifier target spans whole characters of the source.
    proof fn lemma_target(&self, point: u32)
        requires
            self.wf(),
        ensures
            self.rename_target(point) matches Some((s, _)) ==> char_span(
                self.text(),
                s.from as int,
                s.to as int,
            ),
    {
        lemma_first_rule_at(self.entries(), point as int);
        lemma_first_leaf_at(self.arena(), point as int);
        if first_rule_at(self.entries(), point as int) is Some {
            let r = first_rule_at(self.entries(), point as int)->0;
            let i = choose|i: int| 0 <= i < self.entries().len() && (#[trigger] self.entries()[i]).1 == r;
            assert(rule_entries(self.rules)[i].1 == r);
        } else if first_leaf_at(self.arena(), point as int) is Some {
            let x = first_leaf_at(self.arena(), point as int)->0;
            let i = choose|i: int| 0 <= i < self.arena().len() && #[trigger] self.arena()[i] == x;
            assert(self.terms@[i] == x);
        }
    }

    /// What a rename at byte offset `point` renames.
    fn target(&self, point: u32) -> (r: Option<(BSpan, bool)>)
        requires
            self.wf(),
        ensures
            r == self.rename_target(point),
    {
        match self.get_rule(point) {
            Some(rule) => Some((rule.name, true)),
            None => match self.get_token(point) {
                Some(Term::Ident(span)) => Some((span, false)),
                _ => None,
            },
        }
    }

    /// Renames the rule or identifier at `pos` to `new_name`: an edit for every reference,
    /// and for the declaration when the position is on one. For a meta name the edits leave
    /// its leading `$` in place. `None` when nothing renamable is there.
    pub fn rename(&self, pos: Position, new_name: &str) -> (r: Result<Option<Vec<TextEdit>>, RenameError>)
        requires
            self.wf(),
        ensures
            !spec_valid_id(new_name@) ==> r == Err::<Option<Vec<TextEdit>>, RenameError>(RenameError::InvalidName),
            spec_valid_id(new_name@) ==> match point_of(self.breaks(), pos) {
                None => r == Ok::<Option<Vec<TextEdit>>, RenameError>(None),
                Some(p) => match self.rename_target(p) {
                    None => r == Ok::<Option<Vec<TextEdit>>, RenameError>(None),
                    Some((span, declared)) => r matches Ok(Some(edits)) && {
                        let spans = self.rename_spans(span, declared);
                        &&& edits@.len() == spans.len()
                        &&& forall|i: int|
                            0 <= i < spans.len() ==> (#[trigger] edits@[i]).range == edit_range(
                                range_of(self.breaks(), spans[i]),
                                self.is_meta(span),
                                span.to - span.from,
                            ) && edits@[i].new_text@ == new_name@
                    },
                },
            },
    {
        if !valid_id(new_name) {
            return Err(RenameError::InvalidName);
        }
        let point = match self.get_point(pos) {
            Some(p) => p,
            None => {
                return Ok(None);
            },
        };
        let (span, declared) = match self.target(point) {
            Some(t) => t,
            None => {
                return Ok(None);
            },
        };
        proof {
            self.lemma_target(point);
        }
        let text = crate::parser::slice_source(self.source.as_str(), span);
        let chars = crate::text::to_chars(text);
        let meta = chars.len() > 0 && chars[0] == META;
        let refs = self.references(text);
        let ghost spans = self.rename_spans(span, declared);
        let len = span.to - span.from;
        let mut edits: Vec<TextEdit> = Vec::new();
        let mut i: usize = 0;
        while i < refs.len()
            invariant
                self.wf(),
                i <= refs@.len(),
                refs@ == idents_named(self.arena(), self.text(), self.span_str(span)),
                meta == self.is_meta(span),
                len == span.to - span.from,
                edits@.len() == i,
                forall|j: int|
                    0 <= j < i ==> (#[trigger] edits@[j]).range == edit_range(
                        range_of(self.breaks(), refs@[j]),
                        meta,
                        len as int,
                    ) && edits@[j].new_text@ == new_name@,
            decreases refs@.len() - i,
        {
            let range = edit_range_exec(self.get_range(refs[i]), meta, len);
            edits.push(TextEdit { range, new_text: new_name.to_owned() });
            i += 1;
        }
        if declared {
            let range = edit_range_exec(self.get_range(span), meta, len);
            edits.push(TextEdit { range, new_text: new_name.to_owned() });
        }
        proof {
            assert forall|j: int| 0 <= j < spans.len() implies (#[trigger] edits@[j]).range == edit_range(
                range_of(self.breaks(), spans[j]),
                meta,
                len as int,
            ) && edits@[j].new_text@ == new_name@ by {
                if j < refs@.len() {
                    assert(spans[j] == refs@[j]);
                } else {
                    assert(spans[j] == span);
                }
            }
        }
        Ok(Some(edits))
    }

    /// The ranges of the references to the rule or identifier at `pos`.
    pub fn reference_ranges(&self, pos: Position) -> (r: Option<Vec<Range>>)
        requires
            self.wf(),
        ensures
            match point_of(self.breaks(), pos) {
                None => r is None,
                Some(p) => match self.rename_target(p) {
                    None => r is None,
                    Some((span, _)) => r matches Some(v) && {
                        let refs = idents_named(self.arena(), self.text(), self.span_str(span));
                        &&& v@.len() == refs.len()
                        &&& forall|i: int| 0 <= i < refs.len() ==> #[trigger] v@[i] == range_of(self.breaks(), refs[i])
                    },
                },
            },
    {
        let point = match self.get_point(pos) {
            Some(p) => p,
            None => {
                return None;
            },
        };
        let (span, _) = match self.target(point) {
            Some(t) => t,
            None => {
                return None;
            },
        };
        proof {
            self.lemma_target(point);
        }
        let text = crate::parser::slice_source(self.source.as_str(), span);
        let refs = self.references(text);
        let mut out: Vec<Range> = Vec::new();
        let mut i: usize = 0;
        while i < refs.len()
            invariant
                self.wf(),
                i <= refs@.len(),
                out@.len() == i,
                forall|j: int| 0 <= j < i ==> #[trigger] out@[j] == range_of(self.breaks(), refs@[j]),
            decreases refs@.len() - i,
        {
            out.push(self.get_range(refs[i]));
            i += 1;
        }
        Some(out)
    }

    /// The range of the declaration of the rule that the identifier at `pos` names.
    pub fn definition(&self, pos: Position) -> (r: Option<Range>)
        requires
            self.wf(),
        ensures
            match point_of(self.breaks(), pos) {
                None => r is None,
                Some(p) => match first_leaf_at(self.arena(), p as int) {
                    Some(Term::Ident(s)) => {
                        &&& r matches Some(x) ==> exists|k: int|
                            0 <= k < self.entries().len() && (#[trigger] self.entries()[k]).0
                                == self.span_str(s) && x == range_of(self.breaks(), self.entries()[k].1.name)
                        &&& r is None ==> forall|k: int|
                            0 <= k < self.entries().len() ==> (#[trigger] self.entries()[k]).0
                                != self.span_str(s)
                    },
                    _ => r is None,
                },
            },
    {
        let point = match self.get_point(pos) {
            Some(p) => p,
            None => {
                return None;
            },
        };
        let span = match self.get_token(point) {
            Some(Term::Ident(s)) => s,
            _ => {
                return None;
            },
        };
        proof {
            lemma_first_leaf_at(self.arena(), point as int);
            let i = choose|i: int| 0 <= i < self.arena().len() && #[trigger] self.arena()[i] == Term::Ident(span);
            assert(self.terms@[i] == Term::Ident(span));
        }
        let text = crate::parser::slice_source(self.source.as_str(), span);
        match rules_index_of(&self.rules, text) {
            Some(k) => {
                let (_, rule) = rules_get_index(&self.rules, k);
                let r = self.get_range(rule.name);
                proof {
                    assert(self.entries()[k as int].0 == self.span_str(span));
                    assert(r == range_of(self.breaks(), self.entries()[k as int].1.name));
                }
                Some(r)
            },
            None => None,
        }
    }

    /// One symbol per named rule, in order: its name and the range of the name.
    pub fn symbols(&self) -> (r: Vec<(String, Range)>)
        requires
            self.wf(),
        ensures
            r@.len() == self.entries().len(),
            forall|i: int|
                0 <= i < r@.len() ==> (#[trigger] r@[i]).0@ == self.entries()[i].0 && r@[i].1
                    == range_of(self.breaks(), self.entries()[i].1.name),
    {
        let n = rules_len(&self.rules);
        let mut out: Vec<(String, Range)> = Vec::new();
        let mut i: usize = 0;
        while i < n
            invariant
                self.wf(),
                i <= n,
                n == rule_entries(self.rules).len(),
                out@.len() == i,
                forall|j: int|
                    0 <= j < i ==> (#[trigger] out@[j]).0@ == rule_entries(self.rules)[j].0
                        && out@[j].1 == range_of(self.breaks(), rule_entries(self.rules)[j].1.name),
            decreases n - i,
        {
            let (key, rule) = rules_get_index(&self.rules, i);
            out.push((key.as_str().to_owned(), self.get_range(rule.name)));
            i += 1;
        }
        out
    }
}

} // verus!
