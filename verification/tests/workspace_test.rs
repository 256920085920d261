use text_marker::lsp::{Publication, Workspace};

fn summary(pubs: &[Publication]) -> Vec<(String, Vec<(u32, u32)>)> {
    pubs.iter()
        .map(|p| {
            (
                p.uri.clone(),
                p.diagnostics.iter().map(|d| (d.range.start.line, d.range.start.character)).collect(),
            )
        })
        .collect()
}

#[test]
fn opening_a_document_publishes_its_marks() {
    let mut w = Workspace::new(Some(vec!["foo".to_string()]));
    let pubs = w.did_open("file:///a".to_string(), "foo\n foo".to_string());
    assert_eq!(summary(&pubs), vec![("file:///a".to_string(), vec![(0, 0), (1, 1)])]);
}

#[test]
fn changes_take_the_last_full_text() {
    let mut w = Workspace::new(Some(vec!["foo".to_string()]));
    w.did_open("file:///a".to_string(), "".to_string());
    let pubs = w.did_change("file:///a".to_string(), vec!["foo".to_string(), "x foo".to_string()]);
    assert_eq!(summary(&pubs), vec![("file:///a".to_string(), vec![(0, 2)])]);
    let pubs = w.did_change("file:///a".to_string(), vec![]);
    assert_eq!(summary(&pubs), vec![("file:///a".to_string(), vec![(0, 2)])]);
}

#[test]
fn a_change_without_text_to_an_unknown_document_publishes_nothing() {
    let mut w = Workspace::new(None);
    let pubs = w.did_change("file:///b".to_string(), vec![]);
    assert!(pubs.is_empty());
    let pubs = w.did_change("file:///b".to_string(), vec!["text".to_string()]);
    assert_eq!(summary(&pubs), vec![("file:///b".to_string(), vec![])]);
}

#[test]
fn closing_clears_the_diagnostics() {
    let mut w = Workspace::new(Some(vec!["a".to_string()]));
    w.did_open("file:///a".to_string(), "a".to_string());
    let pubs = w.did_close("file:///a".to_string());
    assert_eq!(summary(&pubs), vec![("file:///a".to_string(), vec![])]);
    let pubs = w.reload_marks(None);
    assert!(pubs.is_empty());
}

#[test]
fn reloading_marks_republishes_every_document() {
    let mut w = Workspace::new(None);
    w.did_open("file:///a".to_string(), "a b".to_string());
    w.did_open("file:///b".to_string(), "b".to_string());
    w.did_open("file:///a".to_string(), "b a".to_string());
    let pubs = w.reload_marks(Some(vec!["b".to_string()]));
    assert_eq!(
        summary(&pubs),
        vec![("file:///a".to_string(), vec![(0, 0)]), ("file:///b".to_string(), vec![(0, 0)])]
    );
    let pubs = w.reload_marks(None);
    assert_eq!(
        summary(&pubs),
        vec![("file:///a".to_string(), vec![(0, 0)]), ("file:///b".to_string(), vec![(0, 0)])]
    );
}
