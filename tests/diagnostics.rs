use typos_lsp::diagnostics::{
    check_document, code_actions, diagnostics_for, diagnostics_on_close, message_for, Diagnostic, Finding,
    Position, Range, Severity, Status,
};

fn finding(offset: usize, typo: &str, status: Status) -> Finding {
    Finding { byte_offset: offset, typo: typo.to_string(), corrections: status }
}

fn corrections(cs: &[&str]) -> Status {
    Status::Corrections(cs.iter().map(|c| c.to_string()).collect())
}

#[test]
fn round_trip_single_correction() {
    let findings = vec![finding(0, "helo", corrections(&["hello"]))];
    let diags = diagnostics_for("helo world", &findings, None);
    assert_eq!(diags.len(), 1);
    let d = &diags[0];
    let range = Range {
        start: Position { line: 0, character: 0 },
        end: Position { line: 0, character: 4 },
    };
    assert_eq!(d.range, range);
    assert_eq!(d.message, "`helo` should be `hello`");
    assert_eq!(d.source.as_deref(), Some("typos"));
    assert_eq!(d.data, Some(vec!["hello".to_string()]));
    assert_eq!(d.severity, None);

    let actions = code_actions(&diags);
    assert_eq!(actions.len(), 1);
    assert_eq!(actions[0].title, "hello");
    assert!(actions[0].is_preferred);
    assert_eq!(actions[0].diagnostic, 0);
    assert_eq!(actions[0].edit.range, range);
    assert_eq!(actions[0].edit.new_text, "hello");
}

#[test]
fn multiple_corrections_none_preferred() {
    let findings = vec![finding(4, "colr", corrections(&["color", "collar"]))];
    let diags = diagnostics_for("the colr", &findings, Some(Severity::Hint));
    assert_eq!(diags[0].message, "`colr` should be `color`, `collar`");
    assert_eq!(diags[0].severity, Some(Severity::Hint));
    let actions = code_actions(&diags);
    assert_eq!(actions.len(), 2);
    assert_eq!(actions[0].title, "color");
    assert_eq!(actions[1].title, "collar");
    assert!(!actions[0].is_preferred);
    assert!(!actions[1].is_preferred);
    assert_eq!(actions[1].edit.new_text, "collar");
    assert_eq!(actions[1].edit.range, diags[0].range);
}

#[test]
fn invalid_status_message_and_no_payload() {
    let findings = vec![finding(0, "badword", Status::Invalid)];
    let diags = diagnostics_for("badword", &findings, Some(Severity::Error));
    assert_eq!(diags[0].message, "`badword` is disallowed");
    assert_eq!(diags[0].data, None);
    assert!(code_actions(&diags).is_empty());
}

#[test]
fn message_for_each_status() {
    assert_eq!(message_for("teh", &Status::Invalid), "`teh` is disallowed");
    assert_eq!(message_for("teh", &corrections(&["the"])), "`teh` should be `the`");
    assert_eq!(
        message_for("fo", &corrections(&["of", "for", "do"])),
        "`fo` should be `of`, `for`, `do`"
    );
}

#[test]
fn end_column_counts_utf16_units() {
    // "wörld" is 6 bytes but 5 UTF-16 units
    let buffer = "😀 wörld\nnext";
    let findings = vec![
        finding(5, "wörld", corrections(&["world"])),
        finding(12, "next", Status::Invalid),
    ];
    let diags = diagnostics_for(buffer, &findings, None);
    assert_eq!(diags[0].range.start, Position { line: 0, character: 3 });
    assert_eq!(diags[0].range.end, Position { line: 0, character: 8 });
    assert_eq!(diags[1].range.start, Position { line: 1, character: 0 });
    assert_eq!(diags[1].range.end, Position { line: 1, character: 4 });
}

#[test]
fn no_findings_no_diagnostics() {
    assert!(diagnostics_for("all good", &Vec::new(), None).is_empty());
}

#[test]
fn foreign_or_bare_diagnostics_offer_nothing() {
    let range = Range {
        start: Position { line: 2, character: 1 },
        end: Position { line: 2, character: 5 },
    };
    let foreign = Diagnostic {
        range,
        severity: None,
        source: Some("other".to_string()),
        message: "x".to_string(),
        data: Some(vec!["fix".to_string()]),
    };
    let bare = Diagnostic {
        range,
        severity: None,
        source: Some("typos".to_string()),
        message: "x".to_string(),
        data: None,
    };
    let ours = Diagnostic {
        range,
        severity: None,
        source: Some("typos".to_string()),
        message: "x".to_string(),
        data: Some(vec!["a".to_string(), "b".to_string()]),
    };
    let actions = code_actions(&vec![foreign, bare, ours]);
    assert_eq!(actions.len(), 2);
    assert_eq!(actions[0].diagnostic, 2);
    assert_eq!(actions[1].diagnostic, 2);
    assert_eq!(actions[0].edit.range, range);
}

#[test]
fn close_clears_diagnostics() {
    let findings = vec![finding(0, "helo", corrections(&["hello"]))];
    assert_eq!(diagnostics_for("helo", &findings, None).len(), 1);
    assert!(diagnostics_on_close().is_empty());
}

#[test]
fn excluded_document_has_no_diagnostics() {
    let findings = vec![finding(0, "helo", corrections(&["hello"]))];
    assert!(check_document(true, "helo", &findings, None).is_empty());
    let d = check_document(false, "helo", &findings, None);
    assert_eq!(d.len(), 1);
    assert_eq!(d[0].message, "`helo` should be `hello`");
}
