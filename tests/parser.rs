use cbnf::error::ErrorKind::{Expected, InvalidLit, UnclosedRule, UnopenedRule, Unterminated};
use cbnf::error::{Error, InvalidLiteral};
use cbnf::parser::{list_expected, rule_expected};
use cbnf::span::{BSpan, TSpan};
use cbnf::token::LexKind;
use cbnf::{Cbnf, List, Rule, Term};

fn write_b(span: BSpan, out: &mut String) {
    out.push_str(&format!("({}, {})", span.from, span.to));
}

fn write_t(span: TSpan, out: &mut String) {
    out.push_str(&format!("[{}, {}]", span.from, span.to));
}

fn cbnf_print(cbnf: &Cbnf) -> String {
    let mut bytes = String::new();
    let mut terms = String::new();
    cbnf.rules()
        .iter()
        .for_each(|(_, rule)| rule_print(&mut bytes, &mut terms, rule, cbnf));
    bytes + &terms
}

fn rule_print(bytes: &mut String, terms: &mut String, rule: &Rule, cbnf: &Cbnf) {
    write_b(rule.span, bytes);
    write_b(rule.name, bytes);
    let Some(list) = &rule.expr else {
        return;
    };
    list_print(bytes, terms, list, cbnf);
}

fn list_print(bytes: &mut String, terms: &mut String, list: &List, cbnf: &Cbnf) {
    write_b(list.span(), bytes);
    write_t(list.terms(), terms);
    cbnf.terms_at(list.terms()).iter().for_each(|term| {
        write_b(term.span(), bytes);
        if let Some(t) = term.terms() {
            write_t(t, terms);
        }
    });
}

fn debug<T: std::fmt::Debug>(t: T) -> String {
    format!("{:#?}", t)
}

fn expected(kinds: Vec<LexKind>, from: u32, to: u32) -> Error {
    Error { span: (from, to).into(), kind: Expected(kinds) }
}

fn numeric(from: u32, to: u32) -> Error {
    Error { span: (from, to).into(), kind: InvalidLit(InvalidLiteral::Numeric) }
}

#[test]
fn empty() {
    let src = "yeah { }";
    let cbnf = Cbnf::parse(src);
    let out = cbnf_print(&cbnf);
    assert_eq!(out, "(0, 8)(0, 4)(5, 8)[0, 0]");
    assert!(cbnf.errors.is_empty(), "{:#?}", cbnf.errors);
}

#[test]
fn strings() {
    let src = r#"yeah { "one" "two" "three" }"#;
    let cbnf = Cbnf::parse(src);
    let out = cbnf_print(&cbnf);
    assert_eq!(out, "(0, 28)(0, 4)(5, 28)(7, 12)(13, 18)(19, 26)[0, 3]");
    assert!(cbnf.errors.is_empty(), "{:#?}", cbnf.errors);
}

#[test]
fn chars() {
    let src = "yeah { 'o' 't' 'h' }";
    let cbnf = Cbnf::parse(src);
    let out = cbnf_print(&cbnf);
    assert_eq!(out, "(0, 20)(0, 4)(5, 20)(7, 10)(11, 14)(15, 18)[0, 3]");
    assert!(cbnf.errors.is_empty(), "{:#?}", cbnf.errors);
}

#[test]
fn idents() {
    let src = "yeah { one two three }";
    let cbnf = Cbnf::parse(src);
    let out = cbnf_print(&cbnf);
    assert_eq!(out, "(0, 22)(0, 4)(5, 22)(7, 10)(11, 14)(15, 20)[0, 3]");
    assert!(cbnf.errors.is_empty(), "{:#?}", cbnf.errors);
}

// A container's run starts right after the container itself, so an empty group owns the
// empty run [1, 1].
#[test]
fn group() {
    let src = "yeah { ( ) }";
    let cbnf = Cbnf::parse(src);
    let out = cbnf_print(&cbnf);
    assert_eq!(out, "(0, 12)(0, 4)(5, 12)(7, 10)[0, 1][1, 1]");
    assert!(cbnf.errors.is_empty(), "{:#?}", cbnf.errors);
}

#[test]
fn mixed() {
    let src = r#"yeah { nil a bb "c" 'd' (a bb "c" 'd') nil }"#;
    let cbnf = Cbnf::parse(src);
    let out = cbnf_print(&cbnf);
    assert_eq!(
        out,
        "(0, 44)(0, 4)(5, 44)(7, 10)(11, 12)(13, 15)(16, 19)\
         (20, 23)(24, 38)(25, 26)(27, 29)(30, 33)(34, 37)(39, 42)\
         [0, 11][6, 10]"
    );
    assert!(cbnf.errors.is_empty(), "{:#?}", cbnf.errors);
}

#[test]
fn single_or() {
    let src = r#"yeah { a bb "c" 'd' | a bb "c" 'd' }"#;
    let cbnf = Cbnf::parse(src);
    let out = cbnf_print(&cbnf);
    assert_eq!(
        out,
        "(0, 36)(0, 4)(5, 36)(7, 8)(9, 11)(12, 15)(16, 19)\
         (20, 34)(22, 23)(24, 26)(27, 30)(31, 34)[0, 9][5, 9]"
    );
    assert!(cbnf.errors.is_empty(), "{:#?}", cbnf.errors);
}

#[test]
fn many_or() {
    let src = r#"yeah { a | bb | "c" | 'd' | e | ff | "g" | 'h' }"#;
    let cbnf = Cbnf::parse(src);
    let out = cbnf_print(&cbnf);
    assert_eq!(
        out,
        "(0, 48)(0, 4)(5, 48)(7, 8)(9, 13)(11, 13)(14, 19)(16, 19)(20, 25)\
         (22, 25)(26, 29)(28, 29)(30, 34)(32, 34)(35, 40)(37, 40)(41, 46)\
         (43, 46)\
         [0, 15][2, 3][4, 5][6, 7][8, 9][10, 11][12, 13][14, 15]"
    );
    assert!(cbnf.errors.is_empty(), "{:#?}", cbnf.errors);
}

#[test]
fn many_group_or() {
    let src = r#"yeah { ((a | bb) | "c") | ((('d') | e) | (ff) | ("g" | 'h')) }"#;
    let cbnf = Cbnf::parse(src);
    let out = cbnf_print(&cbnf);
    assert_eq!(
        out,
        "\
            (0, 62)(0, 4)(5, 62)(7, 23)(8, 16)(9, 10)(11, 15)(13, 15)(17, 22)\
            (19, 22)(24, 60)(26, 60)(27, 38)(28, 33)(29, 32)(34, 37)(36, 37)\
            (39, 45)(41, 45)(42, 44)(46, 59)(48, 59)(49, 52)(53, 58)(55, 58)\
            [0, 22][1, 7][2, 5][4, 5][6, 7][8, 22][9, 22][10, 14][11, 12]\
            [13, 14][15, 17][16, 17][18, 22][19, 22][21, 22]"
    );
    assert!(cbnf.errors.is_empty(), "{:#?}", cbnf.errors);
}

// ERROR TESTS -----------------------------------------------------------------

// An unclosed rule is reported over the whole rule, from its name to the end of input.
#[test]
fn unclosed_rule() {
    let src = "yeah { ";
    let cbnf = Cbnf::parse(src);
    let actual = format!("{:#?}", cbnf.errors);
    let expected = debug([Error::from(((0, 7).into(), UnclosedRule))]);
    assert_eq!(actual, expected);
}

#[test]
fn unclosed_group() {
    let src = "yeah { ( }";
    let cbnf = Cbnf::parse(src);
    let actual = format!("{:#?}", cbnf.errors);
    let expected = debug([Error::from(((7, 10).into(), Unterminated))]);
    assert_eq!(actual, expected);
}

#[test]
fn unclosed_rule_group() {
    let src = "yeah { ( ";
    let cbnf = Cbnf::parse(src);
    let actual = format!("{:#?}", cbnf.errors);
    let expected = debug([
        Error::from(((7, 9).into(), Unterminated)),
        Error::from(((0, 9).into(), UnclosedRule)),
    ]);
    assert_eq!(actual, expected);
}

#[test]
fn int_or_float() {
    let src = "yeah { 12_u8 0o100 0b120i99 1f32 12.34f32 1e3 }";
    let cbnf = Cbnf::parse(src);
    let actual = format!("{:#?}", cbnf.errors);
    let expected = debug([
        numeric(7, 12),
        numeric(13, 18),
        numeric(19, 27),
        numeric(28, 32),
        numeric(33, 41),
        numeric(42, 45),
    ]);
    assert_eq!(actual, expected);
}

#[test]
fn not_rule_or_ident() {
    let src = "yeah { \\ #\\@// \\ #\\\n}\n\\ #\\@// \\ #\\\n";
    let cbnf = Cbnf::parse(src);
    let actual = format!("{:#?}", cbnf.errors);
    let expected = debug([
        expected(list_expected(), 7, 8),
        expected(list_expected(), 9, 12),
        expected(rule_expected(), 22, 23),
        expected(rule_expected(), 24, 27),
    ]);
    assert_eq!(actual, expected);
}

#[test]
fn dollar_after_rule() {
    let src = "yeah $";
    let cbnf = Cbnf::parse(src);
    let actual = format!("{:#?}", cbnf.errors);
    let expected = debug([
        Error::from(((0, 4).into(), UnopenedRule)),
        Error::from(((5, 6).into(), Expected(vec![LexKind::Ident]))),
    ]);
    assert_eq!(actual, expected);
}

#[test]
fn unterm_char() {
    let src = "yeah { '\n}";
    let cbnf = Cbnf::parse(src);
    let actual = format!("{:#?}", cbnf.errors);
    let expected = debug([Error::from((
        (7, 8).into(),
        InvalidLit(InvalidLiteral::Unterminated),
    ))]);
    assert_eq!(actual, expected);
}

#[test]
fn unterm_string() {
    let src = "yeah { \"}";
    let cbnf = Cbnf::parse(src);
    let actual = format!("{:#?}", cbnf.errors);
    let expected = debug([
        Error::from(((7, 9).into(), InvalidLit(InvalidLiteral::Unterminated))),
        Error::from(((0, 9).into(), UnclosedRule)),
    ]);
    assert_eq!(actual, expected);
}

// MORE ------------------------------------------------------------------------

#[test]
fn scenario_or_list() {
    let src = r#"yeah { a | bb | "c" }"#;
    let cbnf = Cbnf::parse(src);
    assert!(cbnf.errors.is_empty(), "{:#?}", cbnf.errors);
    assert_eq!(cbnf.rules.len(), 1);
    let terms = cbnf.terms();
    assert_eq!(terms.len(), 5);
    assert!(matches!(terms[0], Term::Ident(s) if s == BSpan::new(7, 8)));
    // each alternative after a bar is an or, from the bar to the end of the alternative
    let Term::Or(first) = terms[1] else { panic!("{:?}", terms[1]) };
    assert_eq!(first.span(), BSpan::new(9, 13));
    assert_eq!(first.terms(), TSpan::new(2, 3));
    let Term::Or(last) = terms[3] else { panic!("{:?}", terms[3]) };
    assert_eq!(last.span(), BSpan::new(14, 19));
    assert_eq!(last.terms(), TSpan::new(4, 5));
    assert!(matches!(terms[4], Term::Literal(s) if s == BSpan::new(16, 19)));
    assert_eq!(cbnf_print(&cbnf), "(0, 21)(0, 4)(5, 21)(7, 8)(9, 13)(11, 13)(14, 19)(16, 19)[0, 5][2, 3][4, 5]");
}

#[test]
fn parse_twice_is_the_same() {
    let src = r#"a { x | (y "z" } b { ( | ) } a { 1 }"#;
    let one = Cbnf::parse(src);
    let two = Cbnf::parse(src);
    assert_eq!(format!("{:?}", one.rules), format!("{:?}", two.rules));
    assert_eq!(format!("{:?}", one.terms), format!("{:?}", two.terms));
    assert_eq!(format!("{:?}", one.errors), format!("{:?}", two.errors));
    assert_eq!(format!("{:?}", one.extras), format!("{:?}", two.extras));
}

#[test]
fn duplicate_rules_go_to_extras() {
    let src = "a { x } b { } a { y }";
    let cbnf = Cbnf::parse(src);
    assert_eq!(cbnf.rules.len(), 2);
    assert_eq!(cbnf.rules.get_index(0).unwrap().0, "a");
    assert_eq!(cbnf.rules.get_index(1).unwrap().0, "b");
    assert_eq!(cbnf.extras.len(), 1);
    assert_eq!(cbnf.extras[0].name, BSpan::new(14, 15));
    assert_eq!(cbnf.rules["a"].name, BSpan::new(0, 1));
}

#[test]
fn spans_nest_in_every_list() {
    let src = r#"r { a | ( b | c "d" ) ( e | } s { (x | y) | z ) q }"#;
    let cbnf = Cbnf::parse(src);
    for rule in cbnf.rules.values().chain(cbnf.extras.iter()) {
        let list = rule.expr.unwrap();
        assert!(rule.span.from <= rule.name.from && rule.name.to <= rule.span.to);
        assert!(rule.span.from <= list.span.from && list.span.to <= rule.span.to);
        for t in cbnf.terms_at(list.terms) {
            assert!(list.span.from <= t.span().from && t.span().to <= list.span.to);
        }
    }
    for (i, t) in cbnf.terms.iter().enumerate() {
        if let Some(run) = t.terms() {
            assert!(i < run.from as usize);
            for inner in cbnf.terms_at(run) {
                assert!(t.span().from <= inner.span().from && inner.span().to <= t.span().to);
            }
        }
    }
}

#[test]
fn comments_are_recorded() {
    let src = "// plain\n/// outer\n//! inner\n/* block */ a { }";
    let cbnf = Cbnf::parse(src);
    assert_eq!(cbnf.comments().len(), 2);
    assert_eq!(cbnf.comments()[0].span(), BSpan::new(0, 8));
    assert_eq!(cbnf.docs().len(), 2);
    assert_eq!(cbnf.docs()[0].style(), cbnf::DocStyle::Outer);
    assert_eq!(cbnf.docs()[1].style(), cbnf::DocStyle::Inner);
    assert_eq!(cbnf.docs()[1].span(), BSpan::new(19, 28));
}

#[test]
fn error_messages() {
    let e = Error { span: (0, 1).into(), kind: Expected(list_expected()) };
    assert_eq!(
        e.message(),
        "Token not expected, expected one of: [ open parenthesis, ident, |, literal, close brace ]"
    );
    assert_eq!(Error::from(((0, 1).into(), Expected(vec![]))).message(), "Token not expected");
    assert_eq!(numeric(0, 1).message(), "Numbers not allowed");
    assert_eq!(Error::from(((0, 1).into(), UnclosedRule)).message(), "Unclosed rule found");
    assert_eq!(Error::from(((0, 1).into(), UnopenedRule)).message(), "Unopened rule found");
    assert_eq!(Error::from(((0, 1).into(), Unterminated)).message(), "Group not terminated");
    assert_eq!(
        Error::from(((0, 1).into(), InvalidLit(InvalidLiteral::Unterminated))).message(),
        "Unterminated terminal found"
    );
}

#[test]
fn congregate_merges_adjacent() {
    let mut a = expected(list_expected(), 3, 4);
    assert!(a.congregate(expected(list_expected(), 4, 6)).is_none());
    assert_eq!(a.span, BSpan::new(3, 6));
    assert!(a.congregate(expected(list_expected(), 7, 8)).is_some());
    assert!(a.congregate(expected(rule_expected(), 6, 8)).is_some());
    assert_eq!(a.span, BSpan::new(3, 6));
}

#[test]
fn unterminated_block_comment_is_an_error() {
    let cbnf = Cbnf::parse("a { } /* x");
    assert_eq!(cbnf.errors.len(), 1);
    assert_eq!(cbnf.errors[0].span, BSpan::new(6, 10));
    assert!(matches!(cbnf.errors[0].kind, Unterminated));
}
