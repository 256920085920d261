use serde_json::Value;
use text_marker::commands::install::{
    blank, bundled_tasks, existing_tasks_text, label_of, merge_task_lists, merge_tasks, Json,
    MergeError,
};

fn labels(json: &str) -> Vec<String> {
    let arr: Vec<Value> = serde_json::from_str(json).unwrap();
    arr.iter()
        .filter_map(|t| t.get("label").and_then(|l| l.as_str()).map(String::from))
        .collect()
}

fn object(members: Vec<(&str, Json)>) -> Json {
    Json::Object(members.into_iter().map(|(k, v)| (k.to_string(), v)).collect())
}

fn task(label: &str, command: &str) -> Json {
    object(vec![("command", Json::Str(command.to_string())), ("label", Json::Str(label.to_string()))])
}

fn task_labels(tasks: &[Json]) -> Vec<Option<String>> {
    tasks.iter().map(label_of).collect()
}

#[test]
fn merge_into_empty_adds_both_tasks() {
    let merged = merge_tasks(None, bundled_tasks()).unwrap();
    let ls = labels(&merged);
    assert!(ls.contains(&"text-marker: toggle".to_string()));
    assert!(ls.contains(&"text-marker: clear".to_string()));
    assert_eq!(ls.len(), 2);
}

#[test]
fn merge_preserves_unrelated_tasks() {
    let existing = r#"[{"label": "build", "command": "cargo build"}]"#;
    let merged = merge_tasks(Some(existing), bundled_tasks()).unwrap();
    let ls = labels(&merged);
    assert!(ls.contains(&"build".to_string()));
    assert_eq!(ls.len(), 3);
}

#[test]
fn merge_is_idempotent() {
    let once = merge_tasks(None, bundled_tasks()).unwrap();
    let twice = merge_tasks(Some(&once), bundled_tasks()).unwrap();
    assert_eq!(labels(&twice).len(), 2);
}

#[test]
fn merge_malformed_existing_errors() {
    assert!(merge_tasks(Some("not json"), bundled_tasks()).is_err());
}

#[test]
fn merge_empty_existing_treated_as_empty() {
    let merged = merge_tasks(Some("   "), bundled_tasks()).unwrap();
    assert_eq!(labels(&merged).len(), 2);
}

#[test]
fn merge_replaces_same_label_and_keeps_order() {
    let existing = vec![
        task("a", "one"),
        task("text-marker: toggle", "old"),
        object(vec![("command", Json::Str("no label".to_string()))]),
        task("b", "two"),
    ];
    let ours = vec![task("text-marker: toggle", "new"), task("text-marker: clear", "clear")];
    let merged = merge_task_lists(existing, ours);
    assert_eq!(
        task_labels(&merged),
        vec![
            Some("a".to_string()),
            None,
            Some("b".to_string()),
            Some("text-marker: toggle".to_string()),
            Some("text-marker: clear".to_string()),
        ]
    );
    match &merged[3] {
        Json::Object(members) => match &members[0].1 {
            Json::Str(command) => assert_eq!(command, "new"),
            _ => panic!("command is not a string"),
        },
        _ => panic!("not an object"),
    }
}

#[test]
fn merging_twice_gives_the_same_tasks() {
    let existing = r#"[{"label": "x", "command": "1"}, {"label": "text-marker: clear", "command": "old"}]"#;
    let once = merge_tasks(Some(existing), bundled_tasks()).unwrap();
    let twice = merge_tasks(Some(&once), bundled_tasks()).unwrap();
    assert_eq!(once, twice);
    assert_eq!(labels(&once), vec!["x", "text-marker: toggle", "text-marker: clear"]);
}

#[test]
fn label_must_be_a_string_member_of_an_object() {
    assert_eq!(label_of(&task("t", "c")), Some("t".to_string()));
    assert_eq!(label_of(&object(vec![("label", Json::Number(serde_json::Number::from(3)))])), None);
    assert_eq!(label_of(&Json::Array(vec![Json::Str("label".to_string())])), None);
    assert_eq!(label_of(&Json::Str("label".to_string())), None);
    assert_eq!(label_of(&object(vec![])), None);
}

#[test]
fn blank_text_is_white_space_only() {
    assert!(blank(""));
    assert!(blank(" \t\r\n\u{3000}\u{a0}"));
    assert!(!blank(" x "));
    assert_eq!(existing_tasks_text(Some("  \n")), None);
    assert_eq!(existing_tasks_text(None), None);
    assert_eq!(existing_tasks_text(Some(" [] ")), Some(" [] "));
}

#[test]
fn bundled_tasks_hold_the_two_labelled_tasks() {
    assert_eq!(labels(bundled_tasks()), vec!["text-marker: toggle", "text-marker: clear"]);
    let merged = merge_tasks(None, bundled_tasks()).unwrap();
    assert_eq!(labels(&merged), vec!["text-marker: toggle", "text-marker: clear"]);
}

#[test]
fn merge_errors_name_the_unreadable_input() {
    assert_eq!(merge_tasks(None, "{}"), Err(MergeError::BundledTasks));
    assert_eq!(merge_tasks(Some("not json"), "[]"), Err(MergeError::ExistingTasks));
    assert_eq!(merge_tasks(Some("not json"), "oops"), Err(MergeError::BundledTasks));
    assert_eq!(merge_tasks(Some("[]"), "[]"), Ok("[]".to_string()));
}

#[test]
fn merge_reads_and_prints_json_values() {
    let existing = r#"[null, true, 1.5, "s", [2], {"b": 1, "a": "x"}]"#;
    let merged = merge_tasks(Some(existing), "[]").unwrap();
    assert_eq!(
        merged,
        "[\n  null,\n  true,\n  1.5,\n  \"s\",\n  [\n    2\n  ],\n  {\n    \"a\": \"x\",\n    \"b\": 1\n  }\n]"
    );
    assert_eq!(merge_tasks(Some("{}"), "[]"), Err(MergeError::ExistingTasks));
    assert_eq!(merge_tasks(Some("["), "[]"), Err(MergeError::ExistingTasks));
}

#[test]
fn bundled_task_replaces_existing_one_in_text() {
    let existing = r#"[{"label": "text-marker: clear", "command": "old"}, {"label": "keep", "command": "k"}]"#;
    let merged = merge_tasks(Some(existing), r#"[{"label": "text-marker: clear", "command": "new"}]"#).unwrap();
    let arr: Vec<Value> = serde_json::from_str(&merged).unwrap();
    assert_eq!(arr.len(), 2);
    assert_eq!(arr[0]["label"], "keep");
    assert_eq!(arr[1]["command"], "new");
}

#[test]
fn merge_keeps_numbers_as_read() {
    let existing = r#"[{"label": "n", "v": 0.1, "w": 1.7976931348623157e308, "x": -12}]"#;
    let merged = merge_tasks(Some(existing), "[]").unwrap();
    let arr: Vec<Value> = serde_json::from_str(&merged).unwrap();
    let original: Vec<Value> = serde_json::from_str(existing).unwrap();
    assert_eq!(arr, original);
}
