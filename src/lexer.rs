//! The cursor and the lexer: one classified lexeme per call, with no text payload.
//!
//! At this level there are no errors and no keywords.
use crate::text::{byte_len, byte_offset, char_width, lemma_offset_mono, lemma_offset_step};
use crate::token::{Base, DocStyle, LexKind, Lexeme, LiteralKind, RawStrError};
use crate::util::{
    emoji_char, emoji_char_of, is_id_continue, is_id_start, is_whitespace, spec_id_start,
    spec_is_whitespace, spec_valid_id, xid_continue,
};
use vstd::prelude::*;

verus! {

/// The character that the peeking functions return past the end of the input.
pub const EOF_CHAR: char = '\0';

/// U+200D, which joins emoji into one glyph.
pub const ZERO_WIDTH_JOINER: char = '\u{200D}';

/// The end of the run of characters of `s`, from index `i` on, that satisfy `p`.
pub open spec fn run_end(s: Seq<char>, i: int, p: spec_fn(char) -> bool) -> int
    decreases s.len() - i,
{
    if 0 <= i < s.len() && p(s[i]) {
        run_end(s, i + 1, p)
    } else {
        i
    }
}

/// A run that stops where `p` fails, or at the end, ends there.
pub proof fn lemma_run_end(s: Seq<char>, i: int, j: int, p: spec_fn(char) -> bool)
    requires
        0 <= i <= j <= s.len(),
        forall|k: int| i <= k < j ==> p(#[trigger] s[k]),
        j == s.len() || !p(s[j]),
    ensures
        run_end(s, i, p) == j,
    decreases j - i,
{
    if i < j {
        lemma_run_end(s, i + 1, j, p);
    }
}

pub open spec fn spec_is_ascii(c: char) -> bool {
    (c as u32) < 128
}

pub open spec fn is_digit(c: char) -> bool {
    '0' <= c && c <= '9'
}

/// The kind of a one-character token.
pub open spec fn punct_kind(c: char) -> Option<LexKind> {
    match c {
        ';' => Some(LexKind::Semi),
        ',' => Some(LexKind::Comma),
        '.' => Some(LexKind::Dot),
        '(' => Some(LexKind::OpenParen),
        ')' => Some(LexKind::CloseParen),
        '{' => Some(LexKind::OpenBrace),
        '}' => Some(LexKind::CloseBrace),
        '[' => Some(LexKind::OpenBracket),
        ']' => Some(LexKind::CloseBracket),
        '@' => Some(LexKind::At),
        '#' => Some(LexKind::Pound),
        '~' => Some(LexKind::Tilde),
        '?' => Some(LexKind::Question),
        ':' => Some(LexKind::Colon),
        '$' => Some(LexKind::Dollar),
        '=' => Some(LexKind::Eq),
        '!' => Some(LexKind::Bang),
        '<' => Some(LexKind::Lt),
        '>' => Some(LexKind::Gt),
        '-' => Some(LexKind::Minus),
        '&' => Some(LexKind::And),
        '|' => Some(LexKind::Or),
        '+' => Some(LexKind::Plus),
        '*' => Some(LexKind::Star),
        '/' => Some(LexKind::Slash),
        '^' => Some(LexKind::Caret),
        '%' => Some(LexKind::Percent),
        _ => None,
    }
}

/// `c` is a non-ASCII emoji character.
pub open spec fn wide_emoji(c: char) -> bool {
    !spec_is_ascii(c) && emoji_char(c)
}

/// The character at index `i` of `t`, or `EOF_CHAR` outside it.
pub open spec fn at(t: Seq<char>, i: int) -> char {
    if 0 <= i < t.len() {
        t[i]
    } else {
        EOF_CHAR
    }
}

/// The doc style of a line comment that starts at index `b` of `t` with `//`.
pub open spec fn line_doc_style(t: Seq<char>, b: int) -> Option<DocStyle> {
    if at(t, b + 2) == '!' {
        Some(DocStyle::Inner)
    } else if at(t, b + 2) == '/' && at(t, b + 3) != '/' {
        Some(DocStyle::Outer)
    } else {
        None
    }
}

/// The doc style of a block comment that starts at index `b` of `t` with `/*`.
pub open spec fn block_doc_style(t: Seq<char>, b: int) -> Option<DocStyle> {
    if at(t, b + 2) == '!' {
        Some(DocStyle::Inner)
    } else if at(t, b + 2) == '*' && !(at(t, b + 3) == '*' || at(t, b + 3) == '/') {
        Some(DocStyle::Outer)
    } else {
        None
    }
}

/// Where a block comment, open `depth` levels deep at index `i`, ends, and how deep it is
/// still open there: `/*` opens one more level, `*/` closes one.
pub open spec fn block_end(t: Seq<char>, i: int, depth: nat) -> (int, nat)
    decreases t.len() - i,
{
    if i >= t.len() {
        (i, depth)
    } else if t[i] == '/' && at(t, i + 1) == '*' {
        block_end(t, i + 2, depth + 1)
    } else if t[i] == '*' && at(t, i + 1) == '/' {
        if depth <= 1 {
            (i + 2, 0)
        } else {
            block_end(t, i + 2, (depth - 1) as nat)
        }
    } else {
        block_end(t, i + 1, depth)
    }
}

/// Where the body of a raw string from index `i` on ends, with `n` closing `#`s wanted, and
/// whether it found them: a quote followed by up to `n` `#`s closes it if there are `n`.
pub open spec fn raw_scan(t: Seq<char>, i: int, n: int) -> (int, bool)
    decreases t.len() - i,
    via raw_scan_decreases
{
    let q = run_end(t, i, |x: char| x != '"');
    if q < i || q >= t.len() || n < 0 {
        (q, false)
    } else {
        let r0 = run_end(t, q + 1, |x: char| x == '#');
        let run = if r0 > q + 1 {
            r0 - (q + 1)
        } else {
            0
        };
        let m = q + 1 + if run < n {
            run
        } else {
            n
        };
        if m - (q + 1) == n {
            (m, true)
        } else {
            raw_scan(t, m, n)
        }
    }
}

#[via_fn]
proof fn raw_scan_decreases(t: Seq<char>, i: int, n: int) {
    lemma_run_end_ge(t, i, |x: char| x != '"');
    let q = run_end(t, i, |x: char| x != '"');
    if q >= i && q < t.len() && n >= 0 {
        lemma_run_end_ge(t, q + 1, |x: char| x == '#');
    }
}

/// A run of `p` ends at or after where it starts.
pub proof fn lemma_run_end_ge(s: Seq<char>, i: int, p: spec_fn(char) -> bool)
    ensures
        run_end(s, i, p) >= i,
        0 <= i <= s.len() ==> run_end(s, i, p) <= s.len(),
    decreases s.len() - i,
{
    if 0 <= i < s.len() && p(s[i]) {
        lemma_run_end_ge(s, i + 1, p);
    }
}

/// A run of `p` that holds over `[i, j)` ends at or after `j`.
pub proof fn lemma_run_end_prefix(s: Seq<char>, i: int, j: int, p: spec_fn(char) -> bool)
    requires
        0 <= i <= j <= s.len(),
        forall|k: int| i <= k < j ==> p(#[trigger] s[k]),
    ensures
        run_end(s, i, p) >= j,
    decreases j - i,
{
    if i < j {
        assert(p(s[i]));
        lemma_run_end_prefix(s, i + 1, j, p);
    } else {
        lemma_run_end_ge(s, i, p);
    }
}

/// The class and end of a raw string literal whose `r` ends at index `i`: the number of `#`s
/// if it is well formed, and where it ends.
pub open spec fn raw_end(t: Seq<char>, i: int) -> (Option<u8>, int) {
    let h = run_end(t, i, |x: char| x == '#');
    let n = h - i;
    if h >= t.len() || t[h] != '"' {
        (None, if h >= t.len() {
            h
        } else {
            h + 1
        })
    } else {
        let (m, closed) = raw_scan(t, h + 1, n);
        (if closed && n <= 255 {
            Some(n as u8)
        } else {
            None
        }, m)
    }
}

/// A decimal digit or `_`.
pub open spec fn dec_char(x: char) -> bool {
    x == '_' || is_digit(x)
}

/// A hexadecimal digit.
pub open spec fn is_hex_digit(x: char) -> bool {
    is_digit(x) || ('a' <= x && x <= 'f') || ('A' <= x && x <= 'F')
}

/// A hexadecimal digit or `_`.
pub open spec fn hex_char(x: char) -> bool {
    x == '_' || is_hex_digit(x)
}

/// Some character of `t` in `[i, j)` satisfies `p`.
pub open spec fn holds_some(t: Seq<char>, i: int, j: int, p: spec_fn(char) -> bool) -> bool {
    exists|k: int| i <= k < j && p(#[trigger] t[k])
}

/// The end of an exponent whose `e` ends at index `i`: a sign, then decimal digits; and
/// whether it has a digit.
pub open spec fn exp_end(t: Seq<char>, i: int) -> (int, bool) {
    let j = if at(t, i) == '-' || at(t, i) == '+' {
        i + 1
    } else {
        i
    };
    let k = run_end(t, j, |x: char| dec_char(x));
    (k, holds_some(t, j, k, |x: char| is_digit(x)))
}

/// What follows the integer part of a number that ends at index `j`: a fractional part, an
/// exponent, or nothing. A dot starts no fraction before another dot or an identifier.
pub open spec fn fraction(t: Seq<char>, j: int, base: Base) -> (LiteralKind, int) {
    if at(t, j) == '.' && at(t, j + 1) != '.' && !spec_id_start(at(t, j + 1)) {
        if is_digit(at(t, j + 1)) {
            let k = run_end(t, j + 1, |x: char| dec_char(x));
            if at(t, k) == 'e' || at(t, k) == 'E' {
                let (m, has) = exp_end(t, k + 1);
                (LiteralKind::Float { base, empty_exponent: !has }, m)
            } else {
                (LiteralKind::Float { base, empty_exponent: false }, k)
            }
        } else {
            (LiteralKind::Float { base, empty_exponent: false }, j + 1)
        }
    } else if at(t, j) == 'e' || at(t, j) == 'E' {
        let (m, has) = exp_end(t, j + 1);
        (LiteralKind::Float { base, empty_exponent: !has }, m)
    } else {
        (LiteralKind::Int { base, empty_int: false }, j)
    }
}

/// The class and the end of a numeric literal whose first digit `first` ends at index `i`.
pub open spec fn number_end(t: Seq<char>, i: int, first: char) -> (LiteralKind, int) {
    let c = at(t, i);
    if first == '0' && (c == 'b' || c == 'o') {
        let base = if c == 'b' {
            Base::Binary
        } else {
            Base::Octal
        };
        let j = run_end(t, i + 1, |x: char| dec_char(x));
        if !holds_some(t, i + 1, j, |x: char| is_digit(x)) {
            (LiteralKind::Int { base, empty_int: true }, j)
        } else {
            fraction(t, j, base)
        }
    } else if first == '0' && c == 'x' {
        let j = run_end(t, i + 1, |x: char| hex_char(x));
        if !holds_some(t, i + 1, j, |x: char| is_hex_digit(x)) {
            (LiteralKind::Int { base: Base::Hexadecimal, empty_int: true }, j)
        } else {
            fraction(t, j, Base::Hexadecimal)
        }
    } else if first == '0' && (is_digit(c) || c == '_') {
        fraction(t, run_end(t, i, |x: char| dec_char(x)), Base::Decimal)
    } else if first == '0' && (c == '.' || c == 'e' || c == 'E') {
        fraction(t, i, Base::Decimal)
    } else if first == '0' {
        (LiteralKind::Int { base: Base::Decimal, empty_int: false }, i)
    } else {
        fraction(t, run_end(t, i, |x: char| dec_char(x)), Base::Decimal)
    }
}

/// Where the body of a double-quoted literal whose opening quote ends at index `i` ends,
/// and whether it reached its closing quote. A backslash escapes a backslash or a quote.
pub open spec fn dq_end(t: Seq<char>, i: int) -> (int, bool)
    decreases t.len() - i,
{
    if i >= t.len() {
        (i, false)
    } else if t[i] == '"' {
        (i + 1, true)
    } else if t[i] == '\\' && i + 1 < t.len() && (t[i + 1] == '\\' || t[i + 1] == '"') {
        dq_end(t, i + 2)
    } else {
        dq_end(t, i + 1)
    }
}

/// Where the body of a single-quoted literal from index `i` on ends, and whether it
/// reached its closing quote. It stops, unterminated, before a `/` (a comment, most likely),
/// before a line break that no quote follows, and at the end of input.
pub open spec fn sq_scan(t: Seq<char>, i: int) -> (int, bool)
    decreases t.len() - i,
{
    if i >= t.len() {
        (i, false)
    } else if t[i] == '\'' {
        (i + 1, true)
    } else if t[i] == '/' {
        (i, false)
    } else if t[i] == '\n' && at(t, i + 1) != '\'' {
        (i, false)
    } else if t[i] == '\\' {
        if i + 2 > t.len() {
            (t.len() as int, false)
        } else {
            sq_scan(t, i + 2)
        }
    } else {
        sq_scan(t, i + 1)
    }
}

/// The same for a literal whose opening quote ends at index `i`: a one-character literal
/// such as `'a'` is taken whole first.
pub open spec fn sq_end(t: Seq<char>, i: int) -> (int, bool) {
    if i + 1 < t.len() && t[i + 1] == '\'' && t[i] != '\\' {
        (i + 2, true)
    } else {
        sq_scan(t, i)
    }
}

/// Where a literal's suffix that may start at index `j` ends: an identifier, or nothing.
pub open spec fn suffix_end(t: Seq<char>, j: int) -> int {
    if 0 <= j < t.len() && spec_id_start(t[j]) {
        run_end(t, j + 1, |x: char| xid_continue(x))
    } else {
        j
    }
}

/// The kind of the lexeme that starts at index `b` of `t`, and the index where it ends, by
/// the classification rules in priority order. At the end of the input it is `Eof`, empty.
#[verifier::opaque]
pub open spec fn lex_at(t: Seq<char>, b: int) -> (LexKind, int) {
    if b >= t.len() {
        (LexKind::Eof, b)
    } else {
        let c = t[b];
        if spec_is_whitespace(c) {
            (LexKind::Whitespace, run_end(t, b + 1, |x: char| spec_is_whitespace(x)))
        } else if c == '/' && at(t, b + 1) == '/' {
            (
                LexKind::LineComment { doc_style: line_doc_style(t, b) },
                run_end(t, b + 2, |x: char| x != '\n'),
            )
        } else if c == '/' && at(t, b + 1) == '*' {
            let (q, depth) = block_end(t, b + 2, 1);
            (LexKind::BlockComment { doc_style: block_doc_style(t, b), terminated: depth == 0 }, q)
        } else if c == 'r' && (at(t, b + 1) == '#' || at(t, b + 1) == '"') {
            let (n_hashes, q) = raw_end(t, b + 1);
            (
                LexKind::Literal {
                    kind: LiteralKind::RawStr { n_hashes },
                    suffix_start: (byte_offset(t, q) - byte_offset(t, b)) as u32,
                },
                if n_hashes is Some {
                    suffix_end(t, q)
                } else {
                    q
                },
            )
        } else if spec_id_start(c) {
            let m = run_end(t, b + 1, |x: char| xid_continue(x));
            if m < t.len() && wide_emoji(t[m]) {
                (LexKind::InvalidIdent, run_end(t, m, |x: char| fake_continue(x)))
            } else {
                (LexKind::Ident, m)
            }
        } else if is_digit(c) {
            let (lit, q) = number_end(t, b + 1, c);
            (
                LexKind::Literal {
                    kind: lit,
                    suffix_start: (byte_offset(t, q) - byte_offset(t, b)) as u32,
                },
                suffix_end(t, q),
            )
        } else if c == '$' && b + 1 < t.len() && spec_id_start(t[b + 1]) {
            let m = run_end(t, b + 2, |x: char| xid_continue(x));
            if m < t.len() && wide_emoji(t[m]) {
                (LexKind::InvalidIdent, run_end(t, m, |x: char| fake_continue(x)))
            } else {
                (LexKind::Ident, m)
            }
        } else if punct_kind(c) is Some {
            (punct_kind(c)->0, b + 1)
        } else if c == '\'' {
            let (q, terminated) = sq_end(t, b + 1);
            (
                LexKind::Literal {
                    kind: LiteralKind::Char { terminated },
                    suffix_start: (byte_offset(t, q) - byte_offset(t, b)) as u32,
                },
                if terminated {
                    suffix_end(t, q)
                } else {
                    q
                },
            )
        } else if c == '"' {
            let (q, terminated) = dq_end(t, b + 1);
            (
                LexKind::Literal {
                    kind: LiteralKind::Str { terminated },
                    suffix_start: (byte_offset(t, q) - byte_offset(t, b)) as u32,
                },
                if terminated {
                    suffix_end(t, q)
                } else {
                    q
                },
            )
        } else if wide_emoji(c) {
            (LexKind::InvalidIdent, run_end(t, b + 1, |x: char| fake_continue(x)))
        } else {
            (LexKind::Unknown, b + 1)
        }
    }
}

/// A peekable cursor over the characters of a source text that keeps the byte offset of its
/// position.
pub struct Cursor<'a> {
    token_pos: u32,
    token_index: Ghost<int>,
    token_start: u32,
    src: &'a str,
    chars: Vec<char>,
    idx: usize,
    pos: u32,
    prev: char,
    prev_token: Lexeme,
}

impl<'a> Cursor<'a> {
    pub closed spec fn wf(&self) -> bool {
        &&& self.chars@ == self.src@
        &&& self.idx <= self.chars.len()
        &&& self.pos == byte_offset(self.chars@, self.idx as int)
        &&& byte_len(self.chars@) <= u32::MAX
        &&& 0 <= self.token_index@ <= self.idx
        &&& self.token_pos == byte_offset(self.chars@, self.token_index@)
        &&& self.token_start <= self.pos
    }

    /// The index of the character where the last lexeme started.
    pub closed spec fn lex_index(&self) -> int {
        self.token_index@
    }

    /// The whole text.
    pub closed spec fn text(&self) -> Seq<char> {
        self.chars@
    }

    /// The source string.
    pub closed spec fn source(&self) -> &'a str {
        self.src
    }

    /// The index of the next character.
    pub closed spec fn index(&self) -> int {
        self.idx as int
    }

    /// The byte offset of the next character.
    pub closed spec fn offset(&self) -> u32 {
        self.pos
    }

    /// The byte offset where the last lexeme started.
    pub closed spec fn lex_start(&self) -> u32 {
        self.token_pos
    }

    /// The byte offset from which `pos_within_token` counts.
    pub closed spec fn within_start(&self) -> u32 {
        self.token_start
    }

    /// The last character eaten.
    pub closed spec fn last_char(&self) -> char {
        self.prev
    }

    /// The last lexeme produced.
    pub closed spec fn last_lexeme(&self) -> Lexeme {
        self.prev_token
    }

    /// The characters not yet eaten.
    pub open spec fn rest(&self) -> Seq<char> {
        self.text().skip(self.index())
    }

    /// What a wf cursor knows of its fields.
    pub proof fn lemma_wf(&self)
        requires
            self.wf(),
        ensures
            0 <= self.index() <= self.text().len(),
            self.offset() == byte_offset(self.text(), self.index()),
            self.offset() <= byte_len(self.text()) <= u32::MAX,
            self.text().len() <= byte_len(self.text()),
            self.text() == self.source()@,
            self.lex_start() <= self.offset(),
            self.within_start() <= self.offset(),
            0 <= self.lex_index() <= self.index(),
            self.lex_start() == byte_offset(self.text(), self.lex_index()),
    {
        lemma_offset_mono(self.chars@, self.token_index@, self.idx as int);
        lemma_offset_mono(self.chars@, self.idx as int, self.chars@.len() as int);
        assert(self.chars@.take(self.chars@.len() as int) =~= self.chars@);
        crate::text::lemma_len_le_bytes(self.chars@);
    }

    pub fn new(input: &'a str) -> (r: Self)
        requires
            byte_len(input@) <= u32::MAX,
        ensures
            r.wf(),
            r.text() == input@,
            r.source() == input,
            r.index() == 0,
            r.offset() == 0,
            r.lex_start() == 0,
            r.lex_index() == 0,
            r.within_start() == 0,
            r.last_char() == EOF_CHAR,
            r.last_lexeme() == (Lexeme { kind: LexKind::Eof, len: 0 }),
    {
        let chars = crate::text::to_chars(input);
        proof {
            assert(chars@.take(0) =~= Seq::<char>::empty());
            assert(vstd::utf8::encode_utf8(Seq::<char>::empty()) =~= Seq::<u8>::empty());
        }
        Cursor {
            token_pos: 0,
            token_index: Ghost(0),
            token_start: 0,
            src: input,
            chars,
            idx: 0,
            pos: 0,
            prev: EOF_CHAR,
            prev_token: Lexeme::new(LexKind::Eof, 0),
        }
    }

    /// The text not yet eaten.
    pub fn as_str(&self) -> (r: &'a str)
        requires
            self.wf(),
        ensures
            r@ == self.rest(),
    {
        proof {
            self.lemma_wf();
            crate::text::lemma_offset_boundary(self.chars@, self.idx as int);
            crate::text::lemma_offset_slice(self.chars@, self.idx as int, self.chars@.len() as int);
            assert(self.chars@.take(self.chars@.len() as int) =~= self.chars@);
        }
        let (_, r) = self.src.split_at(self.pos as usize);
        proof {
            vstd::utf8::encode_utf8_decode_utf8(r@);
            vstd::utf8::encode_utf8_decode_utf8(self.chars@.skip(self.idx as int));
            assert(self.chars@.subrange(self.idx as int, self.chars@.len() as int)
                =~= self.chars@.skip(self.idx as int));
        }
        r
    }

    /// The byte offset of the next character.
    pub fn pos(&self) -> (r: u32)
        ensures
            r == self.offset(),
    {
        self.pos
    }

    /// The byte offset where the last lexeme started.
    pub fn lex_pos(&self) -> (r: u32)
        ensures
            r == self.lex_start(),
    {
        self.token_pos
    }

    pub fn src(&self) -> (r: &'a str)
        ensures
            r == self.source(),
    {
        self.src
    }

    /// The last character eaten, or `EOF_CHAR` before the first.
    pub fn prev(&self) -> (r: char)
        ensures
            r == self.last_char(),
    {
        self.prev
    }

    /// The last lexeme produced.
    pub fn prev_token(&self) -> (r: Lexeme)
        ensures
            r == self.last_lexeme(),
    {
        self.prev_token
    }

    /// The character `k` places ahead, or `EOF_CHAR` past the end.
    fn peek(&self, k: usize) -> (r: char)
        requires
            self.wf(),
            k <= 2,
        ensures
            r == (if self.index() + k < self.text().len() {
                self.text()[self.index() + k]
            } else {
                EOF_CHAR
            }),
    {
        if k < self.chars.len() - self.idx {
            self.chars[self.idx + k]
        } else {
            EOF_CHAR
        }
    }

    /// The next character, or `EOF_CHAR` at the end.
    pub fn first(&self) -> (r: char)
        requires
            self.wf(),
        ensures
            r == (if self.index() < self.text().len() {
                self.text()[self.index()]
            } else {
                EOF_CHAR
            }),
    {
        self.peek(0)
    }

    /// The character after the next one, or `EOF_CHAR`.
    pub fn second(&self) -> (r: char)
        requires
            self.wf(),
        ensures
            r == (if self.index() + 1 < self.text().len() {
                self.text()[self.index() + 1]
            } else {
                EOF_CHAR
            }),
    {
        self.peek(1)
    }

    /// The third character ahead, or `EOF_CHAR`.
    pub fn third(&self) -> (r: char)
        requires
            self.wf(),
        ensures
            r == (if self.index() + 2 < self.text().len() {
                self.text()[self.index() + 2]
            } else {
                EOF_CHAR
            }),
    {
        self.peek(2)
    }

    /// Whether everything has been eaten.
    pub fn is_eof(&self) -> (r: bool)
        requires
            self.wf(),
        ensures
            r == (self.index() == self.text().len()),
    {
        self.idx == self.chars.len()
    }

    /// The number of bytes eaten since the last reset.
    pub fn pos_within_token(&self) -> (r: u32)
        requires
            self.wf(),
        ensures
            r == self.offset() - self.within_start(),
    {
        self.pos - self.token_start
    }

    /// Starts counting eaten bytes afresh.
    pub fn reset_pos_within_token(&mut self)
        requires
            old(self).wf(),
        ensures
            final(self).wf(),
            final(self).within_start() == old(self).offset(),
            final(self).text() == old(self).text(),
            final(self).source() == old(self).source(),
            final(self).index() == old(self).index(),
            final(self).offset() == old(self).offset(),
            final(self).lex_start() == old(self).lex_start(),
            final(self).lex_index() == old(self).lex_index(),
            final(self).last_char() == old(self).last_char(),
            final(self).last_lexeme() == old(self).last_lexeme(),
    {
        self.token_start = self.pos;
    }

    /// Eats the next character and returns it, or `None` at the end.
    pub fn bump(&mut self) -> (r: Option<char>)
        requires
            old(self).wf(),
        ensures
            final(self).wf(),
            final(self).text() == old(self).text(),
            final(self).source() == old(self).source(),
            final(self).lex_start() == old(self).lex_start(),
            final(self).lex_index() == old(self).lex_index(),
            final(self).within_start() == old(self).within_start(),
            final(self).last_lexeme() == old(self).last_lexeme(),
            old(self).index() < old(self).text().len() ==> {
                &&& r == Some(old(self).text()[old(self).index()])
                &&& final(self).index() == old(self).index() + 1
                &&& final(self).last_char() == old(self).text()[old(self).index()]
            },
            old(self).index() == old(self).text().len() ==> r is None && *final(self) == *old(self),
    {
        if self.idx < self.chars.len() {
            let c = self.chars[self.idx];
            proof {
                lemma_offset_step(self.chars@, self.idx as int);
            }
            self.pos = self.pos + char_width(c);
            self.idx = self.idx + 1;
            self.prev = c;
            Some(c)
        } else {
            None
        }
    }

    /// Eats characters while `predicate` holds of them, up to the end.
    pub fn eat_while<F: Fn(char) -> bool>(&mut self, predicate: F)
        requires
            old(self).wf(),
            forall|c: char| predicate.requires((c,)),
        ensures
            final(self).wf(),
            final(self).text() == old(self).text(),
            final(self).source() == old(self).source(),
            final(self).lex_start() == old(self).lex_start(),
            final(self).lex_index() == old(self).lex_index(),
            final(self).within_start() == old(self).within_start(),
            final(self).last_lexeme() == old(self).last_lexeme(),
            old(self).index() <= final(self).index() <= final(self).text().len(),
            forall|k: int|
                old(self).index() <= k < final(self).index() ==> predicate.ensures(
                    (final(self).text()[k],),
                    true,
                ),
            final(self).index() < final(self).text().len() ==> predicate.ensures(
                (final(self).text()[final(self).index()],),
                false,
            ),
    {
        let ghost start = self.idx as int;
        while self.idx < self.chars.len()
            invariant
                self.wf(),
                self.text() == old(self).text(),
                self.source() == old(self).source(),
                self.lex_start() == old(self).lex_start(),
                self.lex_index() == old(self).lex_index(),
                self.within_start() == old(self).within_start(),
                self.last_lexeme() == old(self).last_lexeme(),
                start == old(self).index(),
                start <= self.idx <= self.chars.len(),
                forall|c: char| predicate.requires((c,)),
                forall|k: int|
                    start <= k < self.idx ==> predicate.ensures((self.chars@[k],), true),
            ensures
                self.wf(),
                self.idx < self.chars.len() ==> predicate.ensures(
                    (self.chars@[self.idx as int],),
                    false,
                ),
            decreases self.chars.len() - self.idx,
        {
            let c = self.chars[self.idx];
            if !predicate(c) {
                break;
            }
            self.bump();
        }
    }
}


impl<'a> Cursor<'a> {
    /// `self` is `before` with some more characters eaten.
    pub open spec fn ate_from(&self, before: &Self) -> bool {
        &&& self.wf()
        &&& self.text() == before.text()
        &&& self.source() == before.source()
        &&& self.lex_start() == before.lex_start()
        &&& self.lex_index() == before.lex_index()
        &&& self.within_start() == before.within_start()
        &&& self.last_lexeme() == before.last_lexeme()
        &&& before.index() <= self.index()
    }

    /// Produces the next lexeme. At the end of the input it is `Eof`, of length 0; otherwise
    /// it takes at least one character.
    pub fn advance(&mut self) -> (r: Lexeme)
        requires
            old(self).wf(),
        ensures
            final(self).wf(),
            final(self).text() == old(self).text(),
            final(self).source() == old(self).source(),
            final(self).lex_start() == old(self).offset(),
            final(self).lex_index() == old(self).index(),
            final(self).within_start() == final(self).offset(),
            final(self).last_lexeme() == r,
            r.len == final(self).offset() - old(self).offset(),
            (r.kind, final(self).index()) == lex_at(old(self).text(), old(self).index()),
            (r.kind == LexKind::Eof) == (old(self).index() >= old(self).text().len()),
            r.kind != LexKind::Eof ==> final(self).index() > old(self).index(),
            r.kind == LexKind::Eof ==> final(self).index() == old(self).index(),
    {
        reveal(lex_at);
        self.token_pos = self.pos;
        self.token_index = Ghost(self.idx as int);
        self.token_start = self.pos;
        let ghost t = self.text();
        let ghost b = self.index();
        let first_char = match self.bump() {
            Some(c) => c,
            None => {
                let r = Lexeme::new(LexKind::Eof, 0);
                self.prev_token = r;
                return r;
            },
        };
        let token_kind = if is_whitespace(first_char) {
            self.whitespace()
        } else if first_char == '/' && self.first() == '/' {
            self.line_comment()
        } else if first_char == '/' && self.first() == '*' {
            self.block_comment()
        } else if first_char == 'r' && (self.first() == '#' || self.first() == '"') {
            let res = self.raw_double_quoted_string();
            let suffix_start = self.pos_within_token();
            if res.is_ok() {
                self.eat_literal_suffix();
            }
            let n_hashes = match res {
                Ok(n) => Some(n),
                Err(_) => None,
            };
            LexKind::Literal { kind: LiteralKind::RawStr { n_hashes }, suffix_start }
        } else if is_id_start(first_char) {
            self.ident()
        } else if '0' <= first_char && first_char <= '9' {
            let literal_kind = self.number(first_char);
            let suffix_start = self.pos_within_token();
            self.eat_literal_suffix();
            LexKind::Literal { kind: literal_kind, suffix_start }
        } else if first_char == '$' && !self.is_eof() && is_id_start(self.first()) {
            // A name with the reserved leading `$`.
            self.bump();
            self.ident()
        } else {
            match first_char {
                ';' => LexKind::Semi,
                ',' => LexKind::Comma,
                '.' => LexKind::Dot,
                '(' => LexKind::OpenParen,
                ')' => LexKind::CloseParen,
                '{' => LexKind::OpenBrace,
                '}' => LexKind::CloseBrace,
                '[' => LexKind::OpenBracket,
                ']' => LexKind::CloseBracket,
                '@' => LexKind::At,
                '#' => LexKind::Pound,
                '~' => LexKind::Tilde,
                '?' => LexKind::Question,
                ':' => LexKind::Colon,
                '$' => LexKind::Dollar,
                '=' => LexKind::Eq,
                '!' => LexKind::Bang,
                '<' => LexKind::Lt,
                '>' => LexKind::Gt,
                '-' => LexKind::Minus,
                '&' => LexKind::And,
                '|' => LexKind::Or,
                '+' => LexKind::Plus,
                '*' => LexKind::Star,
                '/' => LexKind::Slash,
                '^' => LexKind::Caret,
                '%' => LexKind::Percent,
                '\'' => self.char(),
                '"' => self.string(),
                c => {
                    if !is_ascii(c) && emoji_char_of(c) {
                        self.fake_ident()
                    } else {
                        LexKind::Unknown
                    }
                },
            }
        };
        let res = Lexeme::new(token_kind, self.pos_within_token());
        self.reset_pos_within_token();
        self.prev_token = res;
        res
    }

    fn whitespace(&mut self) -> (r: LexKind)
        requires
            old(self).wf(),
        ensures
            final(self).ate_from(old(self)),
            r == LexKind::Whitespace,
            final(self).index() == run_end(
                old(self).text(),
                old(self).index(),
                |x: char| spec_is_whitespace(x),
            ),
    {
        self.eat_while(|c: char| -> (r: bool) ensures r == spec_is_whitespace(c) { is_whitespace(c) });
        proof {
            lemma_run_end(
                self.text(),
                old(self).index(),
                self.index(),
                |x: char| spec_is_whitespace(x),
            );
        }
        LexKind::Whitespace
    }

    /// A line comment, after its first `/`.
    fn line_comment(&mut self) -> (r: LexKind)
        requires
            old(self).wf(),
            old(self).index() >= 1,
            at(old(self).text(), old(self).index()) == '/',
        ensures
            final(self).ate_from(old(self)),
            r == (LexKind::LineComment {
                doc_style: line_doc_style(old(self).text(), old(self).index() - 1),
            }),
            final(self).index() == run_end(
                old(self).text(),
                old(self).index() + 1,
                |x: char| x != '\n',
            ),
    {
        self.bump();
        let doc_style = if self.first() == '!' {
            Some(DocStyle::Inner)
        } else if self.first() == '/' && self.second() != '/' {
            Some(DocStyle::Outer)
        } else {
            None
        };
        let ghost from = self.index();
        self.eat_while(|c: char| -> (r: bool) ensures r == (c != '\n') { c != '\n' });
        proof {
            lemma_run_end(self.text(), from, self.index(), |x: char| x != '\n');
        }
        LexKind::LineComment { doc_style }
    }

    /// A block comment, after its `/`. Block comments nest.
    fn block_comment(&mut self) -> (r: LexKind)
        requires
            old(self).wf(),
            old(self).index() >= 1,
            at(old(self).text(), old(self).index()) == '*',
        ensures
            final(self).ate_from(old(self)),
            ({
                let t = old(self).text();
                let (q, depth) = block_end(t, old(self).index() + 1, 1);
                &&& r == (LexKind::BlockComment {
                    doc_style: block_doc_style(t, old(self).index() - 1),
                    terminated: depth == 0,
                })
                &&& final(self).index() == q
            }),
    {
        self.bump();
        let doc_style = if self.first() == '!' {
            Some(DocStyle::Inner)
        } else if self.first() == '*' && !(self.second() == '*' || self.second() == '/') {
            Some(DocStyle::Outer)
        } else {
            None
        };
        let ghost t = self.text();
        let ghost start = self.index();
        let mut depth: usize = 1;
        loop
            invariant_except_break
                1 <= depth,
                block_end(t, start, 1) == block_end(t, self.index(), depth as nat),
            invariant
                self.ate_from(old(self)),
                self.text() == t,
                self.index() >= old(self).index() + 1,
                depth <= self.index(),
            ensures
                block_end(t, start, 1) == (self.index(), depth as nat),
            decreases self.text().len() - self.index(),
        {
            proof {
                self.lemma_wf();
            }
            match self.bump() {
                None => break,
                Some(c) => {
                    if c == '/' && self.first() == '*' {
                        self.bump();
                        depth = depth + 1;
                    } else if c == '*' && self.first() == '/' {
                        self.bump();
                        depth = depth - 1;
                        if depth == 0 {
                            break;
                        }
                    }
                },
            }
        }
        LexKind::BlockComment { doc_style, terminated: depth == 0 }
    }

    /// An identifier, after its first character.
    fn ident(&mut self) -> (r: LexKind)
        requires
            old(self).wf(),
        ensures
            final(self).ate_from(old(self)),
            ({
                let t = old(self).text();
                let m = run_end(t, old(self).index(), |x: char| xid_continue(x));
                if m < t.len() && wide_emoji(t[m]) {
                    r == LexKind::InvalidIdent && final(self).index() == run_end(
                        t,
                        m,
                        |x: char| fake_continue(x),
                    )
                } else {
                    r == LexKind::Ident && final(self).index() == m
                }
            }),
    {
        self.eat_while(|c: char| -> (r: bool) ensures r == xid_continue(c) { is_id_continue(c) });
        proof {
            lemma_run_end(self.text(), old(self).index(), self.index(), |x: char| xid_continue(x));
        }
        let c = self.first();
        if !is_ascii(c) && emoji_char_of(c) && !self.is_eof() {
            self.fake_ident()
        } else {
            LexKind::Ident
        }
    }

    /// An identifier that holds emoji: eats what may continue it.
    fn fake_ident(&mut self) -> (r: LexKind)
        requires
            old(self).wf(),
        ensures
            final(self).ate_from(old(self)),
            r == LexKind::InvalidIdent,
            final(self).index() == run_end(
                old(self).text(),
                old(self).index(),
                |x: char| fake_continue(x),
            ),
    {
        self.eat_while(|c: char| -> (r: bool) ensures r == fake_continue(c) { is_fake_continue(c) });
        proof {
            lemma_run_end(self.text(), old(self).index(), self.index(), |x: char| fake_continue(x));
        }
        LexKind::InvalidIdent
    }

    /// A string literal, after its opening quote.
    pub fn string(&mut self) -> (r: LexKind)
        requires
            old(self).wf(),
        ensures
            final(self).ate_from(old(self)),
            ({
                let (q, terminated) = dq_end(old(self).text(), old(self).index());
                &&& r == (LexKind::Literal {
                    kind: LiteralKind::Str { terminated },
                    suffix_start: (byte_offset(old(self).text(), q) - old(self).within_start()) as u32,
                })
                &&& final(self).index() == if terminated {
                    suffix_end(old(self).text(), q)
                } else {
                    q
                }
            }),
    {
        let terminated = self.double_quoted_string();
        let suffix_start = self.pos_within_token();
        if terminated {
            self.eat_literal_suffix();
        }
        LexKind::Literal { kind: LiteralKind::Str { terminated }, suffix_start }
    }

    /// A numeric literal, after its first digit.
    fn number(&mut self, first_digit: char) -> (r: LiteralKind)
        requires
            old(self).wf(),
        ensures
            final(self).ate_from(old(self)),
            (r, final(self).index()) == number_end(old(self).text(), old(self).index(), first_digit),
    {
        let mut base = Base::Decimal;
        if first_digit == '0' {
            let c = self.first();
            if c == 'b' || c == 'o' {
                base = if c == 'b' {
                    Base::Binary
                } else {
                    Base::Octal
                };
                self.bump();
                if !self.eat_decimal_digits() {
                    return LiteralKind::Int { base, empty_int: true };
                }
            } else if c == 'x' {
                base = Base::Hexadecimal;
                self.bump();
                if !self.eat_hexadecimal_digits() {
                    return LiteralKind::Int { base, empty_int: true };
                }
            } else if ('0' <= c && c <= '9') || c == '_' {
                self.eat_decimal_digits();
            } else if c == '.' || c == 'e' || c == 'E' {
            } else {
                return LiteralKind::Int { base, empty_int: false };
            }
        } else {
            self.eat_decimal_digits();
        }
        let c = self.first();
        if c == '.' && self.second() != '.' && !is_id_start(self.second()) {
            // Not `0..2` nor `12.foo()`: a fractional part, which starts with a digit if
            // anything follows the dot.
            self.bump();
            let mut empty_exponent = false;
            let d = self.first();
            if '0' <= d && d <= '9' {
                self.eat_decimal_digits();
                let e = self.first();
                if e == 'e' || e == 'E' {
                    self.bump();
                    empty_exponent = !self.eat_float_exponent();
                }
            }
            LiteralKind::Float { base, empty_exponent }
        } else if c == 'e' || c == 'E' {
            self.bump();
            let empty_exponent = !self.eat_float_exponent();
            LiteralKind::Float { base, empty_exponent }
        } else {
            LiteralKind::Int { base, empty_int: false }
        }
    }

    /// A character literal, after its opening quote.
    fn char(&mut self) -> (r: LexKind)
        requires
            old(self).wf(),
        ensures
            final(self).ate_from(old(self)),
            ({
                let (q, terminated) = sq_end(old(self).text(), old(self).index());
                &&& r == (LexKind::Literal {
                    kind: LiteralKind::Char { terminated },
                    suffix_start: (byte_offset(old(self).text(), q) - old(self).within_start()) as u32,
                })
                &&& final(self).index() == if terminated {
                    suffix_end(old(self).text(), q)
                } else {
                    q
                }
            }),
    {
        let terminated = self.single_quoted_string();
        let suffix_start = self.pos_within_token();
        if terminated {
            self.eat_literal_suffix();
        }
        LexKind::Literal { kind: LiteralKind::Char { terminated }, suffix_start }
    }

    /// Eats a single-quoted literal after its opening quote; true if it is terminated.
    fn single_quoted_string(&mut self) -> (r: bool)
        requires
            old(self).wf(),
        ensures
            final(self).ate_from(old(self)),
            (final(self).index(), r) == sq_end(old(self).text(), old(self).index()),
    {
        // A one-symbol literal.
        if self.second() == '\'' && self.first() != '\\' {
            self.bump();
            self.bump();
            return true;
        }
        let ghost t = self.text();
        loop
            invariant
                self.ate_from(old(self)),
                self.text() == t,
                sq_end(t, old(self).index()) == sq_scan(t, self.index()),
            ensures
                self.ate_from(old(self)),
                self.text() == t,
                sq_end(t, old(self).index()) == (self.index(), false),
            decreases self.text().len() - self.index(),
        {
            proof {
                self.lemma_wf();
            }
            let c = self.first();
            if c == '\'' {
                self.bump();
                return true;
            } else if c == '/' {
                // Probably a comment, which the literal should not swallow.
                break;
            } else if c == '\n' && self.second() != '\'' {
                break;
            } else if c == EOF_CHAR && self.is_eof() {
                break;
            } else if c == '\\' {
                // An escape is one character.
                self.bump();
                self.bump();
            } else {
                self.bump();
            }
        }
        false
    }

    /// Eats a double-quoted literal after its opening quote; true if it is terminated.
    fn double_quoted_string(&mut self) -> (r: bool)
        requires
            old(self).wf(),
        ensures
            final(self).ate_from(old(self)),
            (final(self).index(), r) == dq_end(old(self).text(), old(self).index()),
    {
        let ghost t = self.text();
        loop
            invariant
                self.ate_from(old(self)),
                self.text() == t,
                dq_end(t, old(self).index()) == dq_end(t, self.index()),
            ensures
                self.ate_from(old(self)),
                self.text() == t,
                dq_end(t, old(self).index()) == (self.index(), false),
            decreases self.text().len() - self.index(),
        {
            proof {
                self.lemma_wf();
            }
            match self.bump() {
                None => break,
                Some(c) => {
                    if c == '"' {
                        return true;
                    } else if c == '\\' && (self.first() == '\\' || self.first() == '"') {
                        // Skip the escaped character.
                        self.bump();
                    }
                },
            }
        }
        false
    }

    /// Eats a raw string after its `r`: `#`s, a quote, the body, a quote and as many `#`s.
    /// Gives the number of `#`s.
    fn raw_double_quoted_string(&mut self) -> (r: Result<u8, RawStrError>)
        requires
            old(self).wf(),
        ensures
            final(self).ate_from(old(self)),
            ({
                let (n_hashes, q) = raw_end(old(self).text(), old(self).index());
                &&& final(self).index() == q
                &&& n_hashes == match r {
                    Ok(n) => Some(n),
                    Err(_) => None,
                }
            }),
    {
        let ghost t = self.text();
        let mut n_start_hashes: u32 = 0;
        while self.first() == '#'
            invariant
                self.ate_from(old(self)),
                self.text() == t,
                n_start_hashes == self.index() - old(self).index(),
                forall|k: int| old(self).index() <= k < self.index() ==> #[trigger] t[k] == '#',
            decreases self.text().len() - self.index(),
        {
            proof {
                self.lemma_wf();
            }
            n_start_hashes = n_start_hashes + 1;
            self.bump();
        }
        proof {
            self.lemma_wf();
            lemma_run_end(t, old(self).index(), self.index(), |x: char| x == '#');
        }
        match self.bump() {
            Some(c) => {
                if c != '"' {
                    return Err(RawStrError::InvalidStarter { bad_char: c });
                }
            },
            None => {
                return Err(RawStrError::InvalidStarter { bad_char: EOF_CHAR });
            },
        }
        let ghost n = n_start_hashes as int;
        let ghost body = self.index();
        let mut max_hashes: u32 = 0;
        let mut possible_terminator_offset: Option<u32> = None;
        loop
            invariant
                self.ate_from(old(self)),
                self.text() == t,
                max_hashes <= n_start_hashes,
                n == n_start_hashes,
                body <= self.index() <= t.len(),
                run_end(t, old(self).index(), |x: char| x == '#') == body - 1,
                t[body - 1] == '"',
                n == body - 1 - old(self).index(),
                raw_scan(t, body, n) == raw_scan(t, self.index(), n),
            decreases self.text().len() - self.index(),
        {
            proof {
                self.lemma_wf();
            }
            let ghost i = self.index();
            self.eat_while(|c: char| -> (r: bool) ensures r == (c != '"') { c != '"' });
            proof {
                lemma_run_end(t, i, self.index(), |x: char| x != '"');
            }
            if self.is_eof() {
                return Err(
                    RawStrError::NoTerminator {
                        expected: n_start_hashes,
                        found: max_hashes,
                        possible_terminator_offset,
                    },
                );
            }
            let quote_offset = self.pos_within_token();
            self.bump();
            let ghost after_quote = self.index();
            let mut n_end_hashes: u32 = 0;
            while self.first() == '#' && n_end_hashes < n_start_hashes
                invariant
                    self.ate_from(old(self)),
                    self.text() == t,
                    self.index() == after_quote + n_end_hashes,
                    self.index() <= t.len(),
                    n_end_hashes <= n_start_hashes,
                    forall|k: int| after_quote <= k < self.index() ==> #[trigger] t[k] == '#',
                decreases self.text().len() - self.index(),
            {
                proof {
                    self.lemma_wf();
                }
                n_end_hashes = n_end_hashes + 1;
                self.bump();
            }
            proof {
                self.lemma_wf();
                if n_end_hashes < n_start_hashes {
                    lemma_run_end(t, after_quote, self.index(), |x: char| x == '#');
                } else {
                    lemma_run_end_prefix(t, after_quote, self.index(), |x: char| x == '#');
                }
                assert(raw_scan(t, i, n) == if n_end_hashes == n_start_hashes {
                    (self.index(), true)
                } else {
                    raw_scan(t, self.index(), n)
                });
            }
            if n_end_hashes == n_start_hashes {
                if n_start_hashes <= 255 {
                    return Ok(n_start_hashes as u8);
                } else {
                    return Err(RawStrError::TooManyDelimiters { found: n_start_hashes });
                }
            } else if n_end_hashes > max_hashes {
                possible_terminator_offset = Some(quote_offset);
                max_hashes = n_end_hashes;
            }
        }
    }

    /// Eats a run of decimal digits and `_`; true if it held a digit.
    fn eat_decimal_digits(&mut self) -> (r: bool)
        requires
            old(self).wf(),
        ensures
            final(self).ate_from(old(self)),
            final(self).index() == run_end(old(self).text(), old(self).index(), |x: char| dec_char(x)),
            r == holds_some(old(self).text(), old(self).index(), final(self).index(), |x: char| is_digit(x)),
    {
        let mut has_digits = false;
        loop
            invariant
                self.ate_from(old(self)),
                forall|k: int| old(self).index() <= k < self.index() ==> dec_char(#[trigger] self.text()[k]),
                has_digits == holds_some(self.text(), old(self).index(), self.index(), |x: char| is_digit(x)),
            ensures
                self.ate_from(old(self)),
                forall|k: int| old(self).index() <= k < self.index() ==> dec_char(#[trigger] self.text()[k]),
                self.index() < self.text().len() ==> !dec_char(self.text()[self.index()]),
                has_digits == holds_some(self.text(), old(self).index(), self.index(), |x: char| is_digit(x)),
            decreases self.text().len() - self.index(),
        {
            proof {
                self.lemma_wf();
            }
            let c = self.first();
            if self.is_eof() {
                break;
            }
            let ghost i = self.index();
            if c == '_' {
                self.bump();
            } else if '0' <= c && c <= '9' {
                has_digits = true;
                self.bump();
            } else {
                break;
            }
            proof {
                let p = |x: char| is_digit(x);
                if holds_some(self.text(), old(self).index(), self.index(), p) && !holds_some(self.text(), old(self).index(), i, p) {
                    let k = choose|k: int| old(self).index() <= k < self.index() && p(#[trigger] self.text()[k]);
                    assert(k == i);
                }
                if holds_some(self.text(), old(self).index(), i, p) {
                    let k = choose|k: int| old(self).index() <= k < i && p(#[trigger] self.text()[k]);
                    assert(old(self).index() <= k < self.index());
                }
            }
        }
        proof {
            lemma_run_end(self.text(), old(self).index(), self.index(), |x: char| dec_char(x));
        }
        has_digits
    }

    /// Eats a run of hexadecimal digits and `_`; true if it held a digit.
    fn eat_hexadecimal_digits(&mut self) -> (r: bool)
        requires
            old(self).wf(),
        ensures
            final(self).ate_from(old(self)),
            final(self).index() == run_end(old(self).text(), old(self).index(), |x: char| hex_char(x)),
            r == holds_some(old(self).text(), old(self).index(), final(self).index(), |x: char| is_hex_digit(x)),
    {
        let mut has_digits = false;
        loop
            invariant
                self.ate_from(old(self)),
                forall|k: int| old(self).index() <= k < self.index() ==> hex_char(#[trigger] self.text()[k]),
                has_digits == holds_some(self.text(), old(self).index(), self.index(), |x: char| is_hex_digit(x)),
            ensures
                self.ate_from(old(self)),
                forall|k: int| old(self).index() <= k < self.index() ==> hex_char(#[trigger] self.text()[k]),
                self.index() < self.text().len() ==> !hex_char(self.text()[self.index()]),
                has_digits == holds_some(self.text(), old(self).index(), self.index(), |x: char| is_hex_digit(x)),
            decreases self.text().len() - self.index(),
        {
            proof {
                self.lemma_wf();
            }
            let c = self.first();
            if self.is_eof() {
                break;
            }
            let ghost i = self.index();
            if c == '_' {
                self.bump();
            } else if ('0' <= c && c <= '9') || ('a' <= c && c <= 'f') || ('A' <= c && c <= 'F') {
                has_digits = true;
                self.bump();
            } else {
                break;
            }
            proof {
                let p = |x: char| is_hex_digit(x);
                if holds_some(self.text(), old(self).index(), self.index(), p) && !holds_some(self.text(), old(self).index(), i, p) {
                    let k = choose|k: int| old(self).index() <= k < self.index() && p(#[trigger] self.text()[k]);
                    assert(k == i);
                }
                if holds_some(self.text(), old(self).index(), i, p) {
                    let k = choose|k: int| old(self).index() <= k < i && p(#[trigger] self.text()[k]);
                    assert(old(self).index() <= k < self.index());
                }
            }
        }
        proof {
            lemma_run_end(self.text(), old(self).index(), self.index(), |x: char| hex_char(x));
        }
        has_digits
    }

    /// Eats an exponent after its `e`: a sign, then digits. True if a digit was met.
    fn eat_float_exponent(&mut self) -> (r: bool)
        requires
            old(self).wf(),
        ensures
            final(self).ate_from(old(self)),
            (final(self).index(), r) == exp_end(old(self).text(), old(self).index()),
    {
        if self.first() == '-' || self.first() == '+' {
            self.bump();
        }
        self.eat_decimal_digits()
    }

    /// Eats the suffix of a literal, such as `u8`.
    fn eat_literal_suffix(&mut self)
        requires
            old(self).wf(),
        ensures
            final(self).ate_from(old(self)),
            final(self).index() == suffix_end(old(self).text(), old(self).index()),
    {
        self.eat_identifier();
    }

    /// Eats an identifier, if one starts here. `_` alone counts.
    fn eat_identifier(&mut self)
        requires
            old(self).wf(),
        ensures
            final(self).ate_from(old(self)),
            final(self).index() == suffix_end(old(self).text(), old(self).index()),
    {
        if self.is_eof() || !is_id_start(self.first()) {
            return;
        }
        self.bump();
        let ghost from = self.index();
        self.eat_while(|c: char| -> (r: bool) ensures r == xid_continue(c) { is_id_continue(c) });
        proof {
            lemma_run_end(self.text(), from, self.index(), |x: char| xid_continue(x));
        }
    }
}

/// What may continue an identifier that holds emoji.
pub open spec fn fake_continue(c: char) -> bool {
    xid_continue(c) || wide_emoji(c) || c == ZERO_WIDTH_JOINER
}

fn is_fake_continue(c: char) -> (r: bool)
    ensures
        r == fake_continue(c),
{
    is_id_continue(c) || (!is_ascii(c) && emoji_char_of(c)) || c == ZERO_WIDTH_JOINER
}

/// The total length of `ls` in bytes.
pub open spec fn lens_sum(ls: Seq<Lexeme>) -> int
    decreases ls.len(),
{
    if ls.len() == 0 {
        0
    } else {
        lens_sum(ls.drop_last()) + ls.last().len
    }
}

/// The lexemes of `t` from index `b` to the end, one after the other.
pub open spec fn lexemes(t: Seq<char>, b: int) -> Seq<Lexeme>
    decreases t.len() - b,
{
    let (k, e) = lex_at(t, b);
    if b < e <= t.len() {
        seq![Lexeme { kind: k, len: (byte_offset(t, e) - byte_offset(t, b)) as u32 }] + lexemes(t, e)
    } else {
        Seq::empty()
    }
}

/// The lexemes of `input`, up to the end: none is `Eof`, and together they cover it.
pub fn tokenize(input: &str) -> (r: Vec<Lexeme>)
    requires
        byte_len(input@) <= u32::MAX,
    ensures
        r@ == lexemes(input@, 0),
        forall|i: int| 0 <= i < r@.len() ==> (#[trigger] r@[i]).kind != LexKind::Eof,
        lens_sum(r@) == byte_len(input@),
{
    let mut cursor = Cursor::new(input);
    let mut out: Vec<Lexeme> = Vec::new();
    proof {
        assert(out@ + lexemes(input@, 0) =~= lexemes(input@, 0));
    }
    loop
        invariant
            out@ + lexemes(input@, cursor.index()) == lexemes(input@, 0),
            cursor.wf(),
            cursor.text() == input@,
            forall|i: int| 0 <= i < out@.len() ==> (#[trigger] out@[i]).kind != LexKind::Eof,
            lens_sum(out@) == cursor.offset(),
        decreases cursor.text().len() - cursor.index(),
    {
        proof {
            cursor.lemma_wf();
        }
        let ghost before = cursor.index();
        let ghost off = cursor.offset();
        let token = cursor.advance();
        proof {
            cursor.lemma_wf();
        }
        if token.kind == LexKind::Eof {
            proof {
                assert(input@.take(input@.len() as int) =~= input@);
                assert(lexemes(input@, before) =~= Seq::<Lexeme>::empty());
                assert(out@ + Seq::<Lexeme>::empty() =~= out@);
            }
            return out;
        }
        let ghost prev = out@;
        out.push(token);
        proof {
            assert(out@.drop_last() =~= prev);
            assert(token == (Lexeme { kind: token.kind, len: (byte_offset(input@, cursor.index()) - byte_offset(input@, before)) as u32 }));
            assert(lexemes(input@, before) == seq![token] + lexemes(input@, cursor.index()));
            assert(out@ + lexemes(input@, cursor.index()) =~= prev + (seq![token] + lexemes(input@, cursor.index())));
        }
    }
}

impl Default for Cursor<'_> {
    /// A cursor over the empty text.
    fn default() -> (r: Self)
        ensures
            r.wf(),
            r.text() == Seq::<char>::empty(),
            r.index() == 0,
            r.offset() == 0,
    {
        proof {
            reveal_strlit("");
            assert(vstd::utf8::encode_utf8(Seq::<char>::empty()) =~= Seq::<u8>::empty());
        }
        Cursor::new("")
    }
}

/// Whether `c` is an ASCII character.
pub fn is_ascii(c: char) -> (r: bool)
    ensures
        r == spec_is_ascii(c),
{
    (c as u32) < 128
}

/// Whether `s` is an identifier.
pub fn is_ident(s: &str) -> (r: bool)
    ensures
        r == spec_valid_id(s@),
{
    crate::util::valid_id(s)
}

} // verus!
