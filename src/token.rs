//! The lexeme classification that the lexer produces.
use vstd::prelude::*;

verus! {

/// One classified token: its kind and its length in bytes. It holds no text; the consumer
/// slices the source with the cursor's running position.
#[derive(Debug, Clone, Copy, PartialEq, Eq, Structural, PartialOrd, Ord)]
pub struct Lexeme {
    pub kind: LexKind,
    pub len: u32,
}

impl Lexeme {
    pub fn new(kind: LexKind, len: u32) -> (r: Self)
        ensures
            r.kind == kind,
            r.len == len,
    {
        Lexeme { kind, len }
    }
}

/// The kinds of lexeme.
#[derive(Debug, Clone, Copy, PartialEq, Eq, Structural, PartialOrd, Ord)]
pub enum LexKind {
    /// `// comment`
    LineComment { doc_style: Option<DocStyle> },
    /// `/* block comment */`, which nests: `/* /* */` is not terminated.
    BlockComment { doc_style: Option<DocStyle>, terminated: bool },
    /// A run of whitespace characters.
    Whitespace,
    /// An identifier.
    Ident,
    /// An identifier that holds an emoji: only lexed for error recovery.
    InvalidIdent,
    /// An unknown literal prefix.
    InvalidPrefix,
    /// A literal: `12u8`, `1.0e-40`, `"abc"`, `'a'`, `r#"x"#`. The suffix starts
    /// `suffix_start` bytes into the lexeme.
    Literal { kind: LiteralKind, suffix_start: u32 },
    /// `;`
    Semi,
    /// `,`
    Comma,
    /// `.`
    Dot,
    /// `(`
    OpenParen,
    /// `)`
    CloseParen,
    /// `{`
    OpenBrace,
    /// `}`
    CloseBrace,
    /// `[`
    OpenBracket,
    /// `]`
    CloseBracket,
    /// `@`
    At,
    /// `#`
    Pound,
    /// `~`
    Tilde,
    /// `?`
    Question,
    /// `:`
    Colon,
    /// `$`
    Dollar,
    /// `=`
    Eq,
    /// `!`
    Bang,
    /// `<`
    Lt,
    /// `>`
    Gt,
    /// `-`
    Minus,
    /// `&`
    And,
    /// `|`
    Or,
    /// `+`
    Plus,
    /// `*`
    Star,
    /// `/`
    Slash,
    /// `^`
    Caret,
    /// `%`
    Percent,
    /// A character that starts no token.
    Unknown,
    /// End of input.
    Eof,
}

impl LexKind {
    /// The human readable name of a kind.
    pub open spec fn spec_name(self) -> Seq<char> {
        match self {
            LexKind::LineComment { .. } => "line comment"@,
            LexKind::BlockComment { .. } => "block comment"@,
            LexKind::Whitespace => "whitespace"@,
            LexKind::Ident => "ident"@,
            LexKind::InvalidIdent => "invalid ident"@,
            LexKind::InvalidPrefix => "invalid prefix"@,
            LexKind::Literal { .. } => "literal"@,
            LexKind::Semi => "semicolon"@,
            LexKind::Comma => "comma"@,
            LexKind::Dot => "dot"@,
            LexKind::OpenParen => "open parenthesis"@,
            LexKind::CloseParen => "close parenthesis"@,
            LexKind::OpenBrace => "open brace"@,
            LexKind::CloseBrace => "close brace"@,
            LexKind::OpenBracket => "open bracket"@,
            LexKind::CloseBracket => "close bracket"@,
            LexKind::At => "@"@,
            LexKind::Pound => "#"@,
            LexKind::Tilde => "~"@,
            LexKind::Question => "?"@,
            LexKind::Colon => ":"@,
            LexKind::Dollar => "$"@,
            LexKind::Eq => "="@,
            LexKind::Bang => "!"@,
            LexKind::Lt => "<"@,
            LexKind::Gt => ">"@,
            LexKind::Minus => "-"@,
            LexKind::And => "&"@,
            LexKind::Or => "|"@,
            LexKind::Plus => "+"@,
            LexKind::Star => "*"@,
            LexKind::Slash => "/"@,
            LexKind::Caret => "^"@,
            LexKind::Percent => "%"@,
            LexKind::Unknown => "unknown"@,
            LexKind::Eof => "end of file"@,
        }
    }

    pub fn name(self) -> (r: &'static str)
        ensures
            r@ == self.spec_name(),
    {
        match self {
            LexKind::LineComment { .. } => "line comment",
            LexKind::BlockComment { .. } => "block comment",
            LexKind::Whitespace => "whitespace",
            LexKind::Ident => "ident",
            LexKind::InvalidIdent => "invalid ident",
            LexKind::InvalidPrefix => "invalid prefix",
            LexKind::Literal { .. } => "literal",
            LexKind::Semi => "semicolon",
            LexKind::Comma => "comma",
            LexKind::Dot => "dot",
            LexKind::OpenParen => "open parenthesis",
            LexKind::CloseParen => "close parenthesis",
            LexKind::OpenBrace => "open brace",
            LexKind::CloseBrace => "close brace",
            LexKind::OpenBracket => "open bracket",
            LexKind::CloseBracket => "close bracket",
            LexKind::At => "@",
            LexKind::Pound => "#",
            LexKind::Tilde => "~",
            LexKind::Question => "?",
            LexKind::Colon => ":",
            LexKind::Dollar => "$",
            LexKind::Eq => "=",
            LexKind::Bang => "!",
            LexKind::Lt => "<",
            LexKind::Gt => ">",
            LexKind::Minus => "-",
            LexKind::And => "&",
            LexKind::Or => "|",
            LexKind::Plus => "+",
            LexKind::Star => "*",
            LexKind::Slash => "/",
            LexKind::Caret => "^",
            LexKind::Percent => "%",
            LexKind::Unknown => "unknown",
            LexKind::Eof => "end of file",
        }
    }
}

/// The style of a doc comment.
#[derive(Debug, Clone, Copy, PartialEq, Eq, Structural, PartialOrd, Ord)]
pub enum DocStyle {
    /// `///` or `/** */`
    Outer,
    /// `//!` or `/*! */`
    Inner,
}

/// The literal classes. The suffix does not decide the class: `1f32` is an `Int`.
#[derive(Debug, Clone, Copy, PartialEq, Eq, Structural, PartialOrd, Ord)]
pub enum LiteralKind {
    /// `12_u8`, `0o100`, `0b120i99`, `1f32`
    Int { base: Base, empty_int: bool },
    /// `12.34f32`, `1e3`, but not `1f32`
    Float { base: Base, empty_exponent: bool },
    /// `'a'`, `'\\'`, `'''`, `';`
    Char { terminated: bool },
    /// `"abc"`, `"abc`
    Str { terminated: bool },
    /// `r"abc"`, `r#"abc"#`, `r####"ab"###"c"####`, `r#"a`. `None` marks an invalid literal.
    RawStr { n_hashes: Option<u8> },
}

impl LiteralKind {
    /// Strings and characters, as opposed to numbers.
    pub open spec fn spec_is_string(self) -> bool {
        !(self is Int || self is Float)
    }

    /// Whether the literal reached its closing delimiter.
    pub open spec fn spec_terminated(self) -> bool {
        match self {
            LiteralKind::Int { .. } | LiteralKind::Float { .. } => true,
            LiteralKind::Char { terminated } | LiteralKind::Str { terminated } => terminated,
            LiteralKind::RawStr { n_hashes } => n_hashes is Some,
        }
    }

    pub fn is_string(self) -> (r: bool)
        ensures
            r == self.spec_is_string(),
    {
        !matches!(self, LiteralKind::Int { .. } | LiteralKind::Float { .. })
    }

    pub fn terminated(self) -> (r: bool)
        ensures
            r == self.spec_terminated(),
    {
        match self {
            LiteralKind::Int { .. } | LiteralKind::Float { .. } => true,
            LiteralKind::Char { terminated } | LiteralKind::Str { terminated } => terminated,
            LiteralKind::RawStr { n_hashes } => n_hashes.is_some(),
        }
    }
}

/// The base of a numeric literal, from its prefix.
#[derive(Debug, Clone, Copy, PartialEq, Eq, Structural, PartialOrd, Ord)]
pub enum Base {
    /// `0b`
    Binary,
    /// `0o`
    Octal,
    /// no prefix
    Decimal,
    /// `0x`
    Hexadecimal,
}

/// Why a raw string literal is malformed.
#[derive(Debug, Clone, Copy, PartialEq, Eq, Structural, PartialOrd, Ord)]
pub enum RawStrError {
    /// A character other than `#` stands between `r` and `"`, as in `r##~"abcde"##`.
    InvalidStarter { bad_char: char },
    /// The string was not terminated, as in `r###"abcde"##`.
    NoTerminator { expected: u32, found: u32, possible_terminator_offset: Option<u32> },
    /// More than 255 `#`s.
    TooManyDelimiters { found: u32 },
}

} // verus!
