use cbnf::lexer::tokenize;

fn check_lexing(src: &str, expect: &str) {
    let actual: String = tokenize(src)
        .iter()
        .map(|token| format!("{:?}\n", token))
        .collect();
    let expect: String = expect
        .lines()
        .map(|l| l.trim())
        .filter(|l| !l.is_empty())
        .map(|l| format!("{}\n", l))
        .collect();
    assert_eq!(actual, expect);
}

#[test]
fn smoke_test() {
    check_lexing(
        "/* my source file */ fn main() { println!(\"zebra\"); }\n",
        r#"
            Lexeme { kind: BlockComment { doc_style: None, terminated: true }, len: 20 }
            Lexeme { kind: Whitespace, len: 1 }
            Lexeme { kind: Ident, len: 2 }
            Lexeme { kind: Whitespace, len: 1 }
            Lexeme { kind: Ident, len: 4 }
            Lexeme { kind: OpenParen, len: 1 }
            Lexeme { kind: CloseParen, len: 1 }
            Lexeme { kind: Whitespace, len: 1 }
            Lexeme { kind: OpenBrace, len: 1 }
            Lexeme { kind: Whitespace, len: 1 }
            Lexeme { kind: Ident, len: 7 }
            Lexeme { kind: Bang, len: 1 }
            Lexeme { kind: OpenParen, len: 1 }
            Lexeme { kind: Literal { kind: Str { terminated: true }, suffix_start: 7 }, len: 7 }
            Lexeme { kind: CloseParen, len: 1 }
            Lexeme { kind: Semi, len: 1 }
            Lexeme { kind: Whitespace, len: 1 }
            Lexeme { kind: CloseBrace, len: 1 }
            Lexeme { kind: Whitespace, len: 1 }
        "#,
    )
}

#[test]
fn comment_flavors() {
    check_lexing(
        r"
// line
//// line as well
/// outer doc line
//! inner doc line
/* block */
/**/
/*** also block */
/** outer doc block */
/*! inner doc block */
",
        r#"
            Lexeme { kind: Whitespace, len: 1 }
            Lexeme { kind: LineComment { doc_style: None }, len: 7 }
            Lexeme { kind: Whitespace, len: 1 }
            Lexeme { kind: LineComment { doc_style: None }, len: 17 }
            Lexeme { kind: Whitespace, len: 1 }
            Lexeme { kind: LineComment { doc_style: Some(Outer) }, len: 18 }
            Lexeme { kind: Whitespace, len: 1 }
            Lexeme { kind: LineComment { doc_style: Some(Inner) }, len: 18 }
            Lexeme { kind: Whitespace, len: 1 }
            Lexeme { kind: BlockComment { doc_style: None, terminated: true }, len: 11 }
            Lexeme { kind: Whitespace, len: 1 }
            Lexeme { kind: BlockComment { doc_style: None, terminated: true }, len: 4 }
            Lexeme { kind: Whitespace, len: 1 }
            Lexeme { kind: BlockComment { doc_style: None, terminated: true }, len: 18 }
            Lexeme { kind: Whitespace, len: 1 }
            Lexeme { kind: BlockComment { doc_style: Some(Outer), terminated: true }, len: 22 }
            Lexeme { kind: Whitespace, len: 1 }
            Lexeme { kind: BlockComment { doc_style: Some(Inner), terminated: true }, len: 22 }
            Lexeme { kind: Whitespace, len: 1 }
        "#,
    )
}

#[test]
fn nested_block_comments() {
    check_lexing(
        "/* /* */ */'a'",
        r#"
            Lexeme { kind: BlockComment { doc_style: None, terminated: true }, len: 11 }
            Lexeme { kind: Literal { kind: Char { terminated: true }, suffix_start: 3 }, len: 3 }
        "#,
    )
}

#[test]
fn characters() {
    check_lexing(
        "'a' ' ' '\\n'",
        r#"
            Lexeme { kind: Literal { kind: Char { terminated: true }, suffix_start: 3 }, len: 3 }
            Lexeme { kind: Whitespace, len: 1 }
            Lexeme { kind: Literal { kind: Char { terminated: true }, suffix_start: 3 }, len: 3 }
            Lexeme { kind: Whitespace, len: 1 }
            Lexeme { kind: Literal { kind: Char { terminated: true }, suffix_start: 4 }, len: 4 }
        "#,
    );
}

#[test]
fn literal_suffixes() {
    check_lexing(
        r####"
'a'
"a"
1234
0b101
0xABC
1.0
1.0e10
2us
"####,
        r#"
            Lexeme { kind: Whitespace, len: 1 }
            Lexeme { kind: Literal { kind: Char { terminated: true }, suffix_start: 3 }, len: 3 }
            Lexeme { kind: Whitespace, len: 1 }
            Lexeme { kind: Literal { kind: Str { terminated: true }, suffix_start: 3 }, len: 3 }
            Lexeme { kind: Whitespace, len: 1 }
            Lexeme { kind: Literal { kind: Int { base: Decimal, empty_int: false }, suffix_start: 4 }, len: 4 }
            Lexeme { kind: Whitespace, len: 1 }
            Lexeme { kind: Literal { kind: Int { base: Binary, empty_int: false }, suffix_start: 5 }, len: 5 }
            Lexeme { kind: Whitespace, len: 1 }
            Lexeme { kind: Literal { kind: Int { base: Hexadecimal, empty_int: false }, suffix_start: 5 }, len: 5 }
            Lexeme { kind: Whitespace, len: 1 }
            Lexeme { kind: Literal { kind: Float { base: Decimal, empty_exponent: false }, suffix_start: 3 }, len: 3 }
            Lexeme { kind: Whitespace, len: 1 }
            Lexeme { kind: Literal { kind: Float { base: Decimal, empty_exponent: false }, suffix_start: 6 }, len: 6 }
            Lexeme { kind: Whitespace, len: 1 }
            Lexeme { kind: Literal { kind: Int { base: Decimal, empty_int: false }, suffix_start: 1 }, len: 3 }
            Lexeme { kind: Whitespace, len: 1 }
        "#,
    )
}

#[test]
fn raw_strings_and_hashes() {
    check_lexing(
        "r#\"a\"b\"# r\"x\" r##\"y\"#",
        r#"
            Lexeme { kind: Literal { kind: RawStr { n_hashes: Some(1) }, suffix_start: 8 }, len: 8 }
            Lexeme { kind: Whitespace, len: 1 }
            Lexeme { kind: Literal { kind: RawStr { n_hashes: Some(0) }, suffix_start: 4 }, len: 4 }
            Lexeme { kind: Whitespace, len: 1 }
            Lexeme { kind: Literal { kind: RawStr { n_hashes: None }, suffix_start: 7 }, len: 7 }
        "#,
    )
}

#[test]
fn punctuation_and_unknown() {
    check_lexing(
        "#/\\$",
        r#"
            Lexeme { kind: Pound, len: 1 }
            Lexeme { kind: Slash, len: 1 }
            Lexeme { kind: Unknown, len: 1 }
            Lexeme { kind: Dollar, len: 1 }
        "#,
    )
}

#[test]
fn meta_names_and_emoji() {
    check_lexing(
        "$ab a\u{1F600}b \u{1F600}",
        r#"
            Lexeme { kind: Ident, len: 3 }
            Lexeme { kind: Whitespace, len: 1 }
            Lexeme { kind: InvalidIdent, len: 6 }
            Lexeme { kind: Whitespace, len: 1 }
            Lexeme { kind: InvalidIdent, len: 4 }
        "#,
    )
}

#[test]
fn unterminated_block_comment_and_numbers() {
    check_lexing(
        "0x 1e /* /*",
        r#"
            Lexeme { kind: Literal { kind: Int { base: Hexadecimal, empty_int: true }, suffix_start: 2 }, len: 2 }
            Lexeme { kind: Whitespace, len: 1 }
            Lexeme { kind: Literal { kind: Float { base: Decimal, empty_exponent: true }, suffix_start: 2 }, len: 2 }
            Lexeme { kind: Whitespace, len: 1 }
            Lexeme { kind: BlockComment { doc_style: None, terminated: false }, len: 5 }
        "#,
    )
}

#[test]
fn lexemes_cover_the_input() {
    let src = "yeah { a | (b \"c\") } // done\n\u{e9}t\u{e9} { }";
    let total: u32 = tokenize(src).iter().map(|l| l.len).sum();
    assert_eq!(total as usize, src.len());
}
