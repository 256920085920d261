use text_marker::marks::{clear, toggle};

#[test]
fn toggle_adds_then_removes() {
    let mut marks: Vec<String> = Vec::new();
    toggle(&mut marks, "foo");
    assert_eq!(marks, vec!["foo".to_string()]);
    toggle(&mut marks, "foo");
    assert_eq!(marks, Vec::<String>::new());
}

#[test]
fn toggle_empty_text_is_noop() {
    let mut marks: Vec<String> = Vec::new();
    toggle(&mut marks, "");
    assert_eq!(marks, Vec::<String>::new());
    let mut marks = vec!["a".to_string()];
    toggle(&mut marks, "");
    assert_eq!(marks, vec!["a".to_string()]);
}

#[test]
fn clear_empties_marks() {
    let mut marks: Vec<String> = Vec::new();
    toggle(&mut marks, "a");
    toggle(&mut marks, "b");
    clear(&mut marks);
    assert_eq!(marks, Vec::<String>::new());
}

#[test]
fn toggle_appends_new_marks_in_order() {
    let mut marks = vec!["a".to_string(), "b".to_string()];
    toggle(&mut marks, "c");
    assert_eq!(marks, vec!["a".to_string(), "b".to_string(), "c".to_string()]);
}

#[test]
fn toggle_removes_only_the_first_occurrence() {
    let mut marks = vec!["a".to_string(), "b".to_string(), "a".to_string()];
    toggle(&mut marks, "a");
    assert_eq!(marks, vec!["b".to_string(), "a".to_string()]);
}

#[test]
fn toggle_twice_restores_unmarked_text() {
    let mut marks = vec!["x".to_string(), "y".to_string()];
    toggle(&mut marks, "z");
    toggle(&mut marks, "z");
    assert_eq!(marks, vec!["x".to_string(), "y".to_string()]);
}

#[test]
fn toggle_twice_moves_marked_text_to_the_end() {
    let mut marks = vec!["x".to_string(), "y".to_string()];
    toggle(&mut marks, "x");
    toggle(&mut marks, "x");
    assert_eq!(marks, vec!["y".to_string(), "x".to_string()]);
}
