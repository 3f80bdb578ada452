//! Character classes and small text helpers.
use crate::span::BSpan;
use crate::token::Lexeme;
use unicode_normalization::UnicodeNormalization;
use unicode_properties::UnicodeEmoji;
use vstd::prelude::*;

verus! {

/// What `unicode_ident::is_xid_start` says of a character.
pub uninterp spec fn xid_start(c: char) -> bool;

/// What `unicode_ident::is_xid_continue` says of a character.
pub uninterp spec fn xid_continue(c: char) -> bool;

/// What `unicode_properties::UnicodeEmoji::is_emoji_char` says of a character.
pub uninterp spec fn emoji_char(c: char) -> bool;

/// The NFC normal form of a text, as `unicode_normalization` computes it.
pub uninterp spec fn nfc_of(s: Seq<char>) -> Seq<char>;

/// Relies on `unicode_ident::is_xid_start`: whether `c` has the XID_Start property.
#[verifier::external_body]
fn xid_start_of(c: char) -> (r: bool)
    ensures
        r == xid_start(c),
{
    unicode_ident::is_xid_start(c)
}

/// Relies on `unicode_ident::is_xid_continue`: whether `c` has the XID_Continue property.
#[verifier::external_body]
fn xid_continue_of(c: char) -> (r: bool)
    ensures
        r == xid_continue(c),
{
    unicode_ident::is_xid_continue(c)
}

/// Relies on `unicode_properties::UnicodeEmoji::is_emoji_char`: whether `c` has `Emoji=Yes`.
#[verifier::external_body]
pub(crate) fn emoji_char_of(c: char) -> (r: bool)
    ensures
        r == emoji_char(c),
{
    c.is_emoji_char()
}

/// Relies on `unicode_normalization::is_nfc_quick`: a `Yes` answer means that the text is
/// already in NFC.
#[verifier::external_body]
fn nfc_quick_yes(s: &str) -> (r: bool)
    ensures
        r ==> nfc_of(s@) == s@,
{
    matches!(unicode_normalization::is_nfc_quick(s.chars()), unicode_normalization::IsNormalized::Yes)
}

/// Relies on `unicode_normalization::UnicodeNormalization::nfc`: the NFC form of `s`.
#[verifier::external_body]
fn nfc_string(s: &str) -> (r: String)
    ensures
        r@ == nfc_of(s@),
{
    s.chars().nfc().collect::<String>()
}

/// The whitespace characters of the grammar.
pub open spec fn spec_is_whitespace(c: char) -> bool {
    c == '\u{0009}' || c == '\u{000A}' || c == '\u{000B}' || c == '\u{000C}' || c == '\u{000D}'
        || c == '\u{0020}' || c == '\u{0085}' || c == '\u{200E}' || c == '\u{200F}'
        || c == '\u{2028}' || c == '\u{2029}'
}

/// An identifier starts with `_` or an XID_Start character.
pub open spec fn spec_id_start(c: char) -> bool {
    c == '_' || xid_start(c)
}

/// A well-formed identifier: an identifier start, then identifier continue characters.
pub open spec fn spec_valid_id(s: Seq<char>) -> bool {
    s.len() > 0 && spec_id_start(s[0]) && forall|k: int| 1 <= k < s.len() ==> xid_continue(#[trigger] s[k])
}

pub fn is_whitespace(c: char) -> (r: bool)
    ensures
        r == spec_is_whitespace(c),
{
    matches!(
        c,
        // the usual ASCII ones: tab, line feed, vertical tab, form feed, carriage return, space
        '\u{0009}' | '\u{000A}' | '\u{000B}' | '\u{000C}' | '\u{000D}' | '\u{0020}'
        // next line, from latin1
        | '\u{0085}'
        // bidi markers
        | '\u{200E}' | '\u{200F}'
        // line and paragraph separators
        | '\u{2028}' | '\u{2029}'
    )
}

pub fn is_id_start(c: char) -> (r: bool)
    ensures
        r == spec_id_start(c),
{
    c == '_' || xid_start_of(c)
}

pub fn is_id_continue(c: char) -> (r: bool)
    ensures
        r == xid_continue(c),
{
    xid_continue_of(c)
}

/// Whether `s` is a well-formed identifier.
pub fn valid_id(s: &str) -> (r: bool)
    ensures
        r == spec_valid_id(s@),
{
    let chars = crate::text::to_chars(s);
    if chars.len() == 0 || !is_id_start(chars[0]) {
        return false;
    }
    let mut i: usize = 1;
    while i < chars.len()
        invariant
            chars@ == s@,
            1 <= i <= chars.len(),
            forall|k: int| 1 <= k < i ==> xid_continue(#[trigger] chars@[k]),
        decreases chars.len() - i,
    {
        if !is_id_continue(chars[i]) {
            return false;
        }
        i += 1;
    }
    true
}

/// The NFC normal form of `string`.
pub fn nfc_normalize(string: &str) -> (r: String)
    ensures
        r@ == nfc_of(string@),
{
    if nfc_quick_yes(string) {
        string.to_owned()
    } else {
        nfc_string(string)
    }
}

/// Where a span comes from: a length at the current token, a lexeme, or a span as it is.
#[derive(Debug, Clone, Copy, PartialEq, Eq, Structural, PartialOrd, Ord)]
pub enum AsBSpan {
    /// A length from the start of the current token.
    Len(u32),
    /// The current token, with this lexeme's length.
    Lex(Lexeme),
    /// The span given.
    Span(BSpan),
}

/// A text: a span of the source, or a string given directly.
#[derive(Debug, Clone, Copy, PartialEq, Eq, PartialOrd, Ord)]
pub enum AsStr<'a> {
    Span(AsBSpan),
    Str(&'a str),
}

impl From<u32> for AsBSpan {
    fn from(value: u32) -> (r: Self) {
        AsBSpan::Len(value)
    }
}

impl vstd::std_specs::convert::FromSpecImpl<u32> for AsBSpan {
    open spec fn obeys_from_spec() -> bool {
        true
    }

    open spec fn from_spec(v: u32) -> AsBSpan {
        AsBSpan::Len(v)
    }
}

impl From<Lexeme> for AsBSpan {
    fn from(value: Lexeme) -> (r: Self) {
        AsBSpan::Lex(value)
    }
}

impl vstd::std_specs::convert::FromSpecImpl<Lexeme> for AsBSpan {
    open spec fn obeys_from_spec() -> bool {
        true
    }

    open spec fn from_spec(v: Lexeme) -> AsBSpan {
        AsBSpan::Lex(v)
    }
}

impl From<BSpan> for AsBSpan {
    fn from(value: BSpan) -> (r: Self) {
        AsBSpan::Span(value)
    }
}

impl vstd::std_specs::convert::FromSpecImpl<BSpan> for AsBSpan {
    open spec fn obeys_from_spec() -> bool {
        true
    }

    open spec fn from_spec(v: BSpan) -> AsBSpan {
        AsBSpan::Span(v)
    }
}

} // verus!
