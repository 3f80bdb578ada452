use cbnf::index::{find_line, find_lines, get_range, is_keyword, Document, Position, Range, RenameError};
use cbnf::span::BSpan;

fn pos(line: u32, character: u32) -> Position {
    Position { line, character }
}

fn range(a: (u32, u32), b: (u32, u32)) -> Range {
    Range { start: pos(a.0, a.1), end: pos(b.0, b.1) }
}

#[test]
fn line_table() {
    assert_eq!(find_lines("a\nbc\n\nd"), vec![1, 4, 5]);
    assert_eq!(find_lines(""), Vec::<u32>::new());
    let breaks = [1, 4, 5];
    assert_eq!(find_line(&breaks, 0), 0);
    assert_eq!(find_line(&breaks, 1), 1);
    assert_eq!(find_line(&breaks, 2), 1);
    assert_eq!(find_line(&breaks, 6), 3);
}

#[test]
fn ranges_are_zero_based() {
    let breaks = [1, 4, 5];
    // "a\nbc\n\nd": `b` is on line 1, column 0
    assert_eq!(get_range(&breaks, BSpan::new(2, 3)), range((1, 0), (1, 1)));
    // an end at a line break counts on the next line
    assert_eq!(get_range(&breaks, BSpan::new(2, 4)), range((1, 0), (2, 0)));
    assert_eq!(get_range(&breaks, BSpan::new(0, 1)), range((0, 0), (1, 0)));
    assert_eq!(get_range(&breaks, BSpan::new(6, 7)), range((3, 0), (3, 1)));
}

#[test]
fn line_col_round_trip_on_each_offset() {
    let src = "ab\ncd\n\nef { x }\n";
    let doc = Document::new(src.to_string());
    for o in 0..=src.len() as u32 {
        if doc.line_breaks().contains(&o) {
            continue;
        }
        let p = doc.get_range(BSpan::new(o, o)).start;
        assert_eq!(doc.get_point(p), Some(o), "offset {o}");
    }
}

#[test]
fn points_past_the_table() {
    let doc = Document::new("a\nb".to_string());
    assert_eq!(doc.get_point(pos(0, 7)), Some(7));
    assert_eq!(doc.get_point(pos(1, 0)), Some(2));
    assert_eq!(doc.get_point(pos(2, 0)), None);
}

#[test]
fn keywords() {
    assert!(is_keyword("nil"));
    assert!(!is_keyword("nill"));
}

#[test]
fn diagnostics_and_completions() {
    let src = "a { b nil c }\nc { 1 }";
    let doc = Document::new(src.to_string());
    let d = doc.diagnostics();
    assert_eq!(d.len(), 2);
    assert_eq!(d[0].message, "Numbers not allowed");
    assert_eq!(d[0].range, range((1, 4), (1, 5)));
    assert_eq!(d[1].message, "Unknown term");
    assert_eq!(d[1].range, range((0, 4), (0, 5)));
    assert_eq!(doc.completions(), &["a".to_string(), "c".to_string()]);
}

#[test]
fn references_and_definition() {
    let src = "a { b a }\nb { a }";
    let doc = Document::new(src.to_string());
    assert_eq!(doc.references("a"), vec![BSpan::new(6, 7), BSpan::new(14, 15)]);
    assert_eq!(doc.definition(pos(1, 4)), Some(range((0, 0), (0, 1))));
    assert_eq!(doc.definition(pos(0, 4)), Some(range((1, 0), (1, 1))));
    assert_eq!(doc.definition(pos(0, 2)), None);
    assert_eq!(
        doc.reference_ranges(pos(0, 0)),
        Some(vec![range((0, 6), (0, 7)), range((1, 4), (1, 5))])
    );
    let symbols = doc.symbols();
    assert_eq!(symbols.len(), 2);
    assert_eq!(symbols[1], ("b".to_string(), range((1, 0), (1, 1))));
}

#[test]
fn rename_rule_and_references() {
    let src = "a { b a }\nb { a }";
    let doc = Document::new(src.to_string());
    let edits = doc.rename(pos(0, 0), "z").unwrap().unwrap();
    let got: Vec<(Range, String)> = edits.into_iter().map(|e| (e.range, e.new_text)).collect();
    assert_eq!(
        got,
        vec![
            (range((0, 6), (0, 7)), "z".to_string()),
            (range((1, 4), (1, 5)), "z".to_string()),
            (range((0, 0), (0, 1)), "z".to_string()),
        ]
    );
    assert_eq!(doc.rename(pos(0, 0), "1z").unwrap_err(), RenameError::InvalidName);
    assert!(doc.rename(pos(0, 2), "z").unwrap().is_none());
}

#[test]
fn rename_meta_name_keeps_its_dollar() {
    let src = "$x { a $x } b { $x }";
    let doc = Document::new(src.to_string());
    let edits = doc.rename(pos(0, 0), "y").unwrap().unwrap();
    let got: Vec<(Range, String)> = edits.into_iter().map(|e| (e.range, e.new_text)).collect();
    assert_eq!(
        got,
        vec![
            (range((0, 8), (0, 9)), "y".to_string()),
            (range((0, 17), (0, 18)), "y".to_string()),
            (range((0, 1), (0, 2)), "y".to_string()),
        ]
    );
}

#[test]
fn rename_meta_name_at_line_end() {
    // the name ends at the line break, so its end falls on the next line; the edit is
    // kept on the name's line
    let src = "r { $m }\n$m\n{ }";
    let doc = Document::new(src.to_string());
    let edits = doc.rename(pos(1, 0), "n").unwrap().unwrap();
    let got: Vec<Range> = edits.into_iter().map(|e| e.range).collect();
    assert_eq!(got, vec![range((0, 5), (0, 6)), range((1, 1), (1, 3))]);
}
