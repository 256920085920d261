use text_marker::lsp::{diagnostics_for, DiagnosticSeverity};
use text_marker::matcher::{Position, Range};

#[test]
fn diagnostics_cover_each_match() {
    let text = "foo bar foo";
    let diags = diagnostics_for(text, &["foo".to_string()]);
    assert_eq!(diags.len(), 2);
    assert_eq!(diags[0].severity, Some(DiagnosticSeverity::Error));
    assert_eq!(diags[0].source.as_deref(), Some("text-marker"));
    assert!(diags[0].message.contains("foo"));
}

#[test]
fn diagnostics_empty_when_no_marks() {
    let diags = diagnostics_for("foo", &[]);
    assert!(diags.is_empty());
}

#[test]
fn diagnostics_are_grouped_by_word() {
    let diags = diagnostics_for("b a b", &["a".to_string(), "b".to_string()]);
    let got: Vec<(String, u32)> = diags.iter().map(|d| (d.message.clone(), d.range.start.character)).collect();
    assert_eq!(
        got,
        vec![
            ("marked: a".to_string(), 2),
            ("marked: b".to_string(), 0),
            ("marked: b".to_string(), 4),
        ]
    );
    assert_eq!(
        diags[1].range,
        Range { start: Position { line: 0, character: 0 }, end: Position { line: 0, character: 1 } }
    );
}

#[test]
fn diagnostic_message_names_the_word() {
    let diags = diagnostics_for("x 日本 y", &["日本".to_string()]);
    assert_eq!(diags.len(), 1);
    assert_eq!(diags[0].message, "marked: 日本");
    assert_eq!(diags[0].range.start, Position { line: 0, character: 2 });
    assert_eq!(diags[0].range.end, Position { line: 0, character: 4 });
}

#[test]
fn equal_inputs_give_equal_diagnostics() {
    let words = vec!["x".to_string(), "y".to_string()];
    let a = diagnostics_for("x y x", &words);
    let b = diagnostics_for("x y x", &words);
    assert_eq!(a.len(), b.len());
    for (d1, d2) in a.iter().zip(b.iter()) {
        assert_eq!(d1.range, d2.range);
        assert_eq!(d1.severity, d2.severity);
        assert_eq!(d1.source, d2.source);
        assert_eq!(d1.message, d2.message);
    }
}
