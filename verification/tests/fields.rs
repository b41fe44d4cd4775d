//! The words that set, append to and subtract from fields.

use taska::complete::{bare_criteria, built_in_names};
use taska::config::Config;
use taska::fields::{
    canonicalize_field_pairs, field_events, field_value, initial_fields, introduced_fields,
    known_fields, nothing_to_remove, nothing_to_subtract, parse_field_ops, used_fields,
    value_source, vet_new_fields, word_source, Content, FieldOps,
};
use taska::json::{compact_text, parse_json, Json};
use taska::model::{OpType, TaskState, Timestamp, DEPS_KEY, ID_KEY, SEQ_KEY, UNBLOCKS_KEY};
use taska::strmap::StrMap;

const STATUS_FIELD: &str = "state";

fn value(key: &str, val: &str) -> Result<String, String> {
    field_value(key, val, &Content::Nothing).map(|v| compact_text(&v))
}

fn ops(words: &[String]) -> Result<FieldOps, String> {
    let words = words.to_vec();
    let reads: Vec<Content> = words.iter().map(|_| Content::Nothing).collect();
    parse_field_ops(&words, &reads)
}

fn pairs(v: &[(String, Json)]) -> Vec<(String, String)> {
    v.iter().map(|(k, v)| (k.clone(), compact_text(v))).collect()
}

fn pair(k: &str, v: &str) -> (String, String) {
    (k.to_string(), v.to_string())
}

#[test]
fn field_value_coerces_bare_and_strings_fallback() {
    assert_eq!(value("k", "open").unwrap(), "\"open\"");
    assert_eq!(value("k", "3").unwrap(), "3");
}

#[test]
fn field_value_double_at_escapes_to_literal_at() {
    // `@@bob` is a literal `@bob`, not a file read.
    assert_eq!(value_source("@@bob"), None);
    assert_eq!(value("owner", "@@bob").unwrap(), "\"@bob\"");
}

#[test]
fn field_value_at_path_reads_a_file_verbatim() {
    // A value full of quotes, backticks, and newlines.
    let body = "Notes: \"quoted\", `backticked`,\nsecond line.\n";
    assert_eq!(value_source("@notes.md").as_deref(), Some("notes.md"));
    assert_eq!(word_source("notes=@notes.md").as_deref(), Some("notes.md"));
    let v = field_value("notes", "@notes.md", &Content::Text(body.to_string())).ok().unwrap();
    // Verbatim, with the single trailing newline trimmed and no JSON coercion.
    assert!(matches!(
        v,
        Json::Str(s) if s == "Notes: \"quoted\", `backticked`,\nsecond line."
    ));
}

#[test]
fn field_value_missing_file_errors() {
    let failed = Content::Failed("no such file".to_string());
    let err = field_value("notes", "@/no/such/taska/file", &failed).err().unwrap();
    assert!(err.contains("no such file"), "{err}");
}

#[test]
fn parse_field_ops_splits_operators_and_keeps_raw_tokens() {
    let FieldOps { set, append, subtract, raw } = ops(&[
        format!("{STATUS_FIELD}=open"),
        "log+=first".into(),
        "points-=2".into(),
        "priority=3".into(),
        "version=3.10".into(),
    ])
    .ok()
    .unwrap();
    let text = |m: &taska::strmap::StrMap<Json>, k: &str| m.get(k).map(compact_text);
    assert_eq!(text(&set, STATUS_FIELD).as_deref(), Some("\"open\""));
    assert_eq!(text(&set, "priority").as_deref(), Some("3"));
    assert_eq!(pairs(&append), vec![pair("log", "\"first\"")]);
    assert_eq!(pairs(&subtract), vec![pair("points", "2")]);
    assert!(
        !set.contains_key("log")
            && !append.iter().any(|(k, _)| k == STATUS_FIELD)
            && !set.contains_key("points"),
        "each token lands in exactly one bucket"
    );
    // The guess loses "3.10" (-> 3.1); the raw token preserves it.
    assert_eq!(text(&set, "version").as_deref(), Some("3.1"));
    assert_eq!(text(&raw, "version").as_deref(), Some("\"3.10\""));
}

#[test]
fn parse_field_ops_keeps_repeated_same_field_tokens_in_order() {
    let FieldOps { set, append, subtract, .. } = ops(&[
        "tags+=a".into(),
        "tags+=b".into(),
        "scores-=1".into(),
        "scores-=2".into(),
        // Repeated `=` stays last-wins (a map): you're choosing one value.
        "title=first".into(),
        "title=second".into(),
    ])
    .ok()
    .unwrap();
    assert_eq!(pairs(&append), vec![pair("tags", "\"a\""), pair("tags", "\"b\"")]);
    assert_eq!(pairs(&subtract), vec![pair("scores", "1"), pair("scores", "2")]);
    assert_eq!(
        set.get("title").map(compact_text).as_deref(),
        Some("\"second\""),
        "`=` is last-wins"
    );
}

#[test]
fn parse_field_ops_rejects_reserved_empty_and_opless() {
    // Envelope keys (`seq`) and the static computed columns.
    for key in [SEQ_KEY, ID_KEY, DEPS_KEY, UNBLOCKS_KEY] {
        assert!(ops(&[format!("{key}=1")]).is_err(), "reserved set: {key}");
    }
    assert!(ops(&["seq+=1".into()]).is_err(), "reserved append");
    assert!(ops(&["+=x".into()]).is_err(), "empty key");
    assert!(ops(&["noeq".into()]).is_err(), "no operator");
}

#[test]
fn invalid_field_is_rejected() {
    assert!(ops(&["no_equals_sign".into()]).is_err());
}

#[test]
fn nothing_is_removed_from_a_new_task() {
    assert!(nothing_to_remove(&ops(&["a=1".into()]).ok().unwrap()).is_ok());
    assert_eq!(
        nothing_to_remove(&ops(&["a=1".into(), "tags-=x".into()]).ok().unwrap()).err().as_deref(),
        Some("`tags-=...` is meaningless on create: a new task has nothing to remove from")
    );
}

fn one_task(held: &[(&str, &str)]) -> StrMap<TaskState> {
    let mut t = TaskState::blank("a");
    for (k, v) in held {
        t.custom_fields.insert(k.to_string(), parse_json(v).unwrap());
    }
    let mut state = StrMap::new();
    state.insert("a".to_string(), t);
    state
}

fn given(held: &[(&str, &str)]) -> StrMap<Json> {
    let mut m = StrMap::new();
    for (k, v) in held {
        m.insert(k.to_string(), parse_json(v).unwrap());
    }
    m
}

#[test]
fn new_field_names_are_refused_unless_allowed() {
    let config = Config::default();
    let state = one_task(&[("title", "1")]);
    assert!(used_fields(&state).contains("title") && !used_fields(&state).contains("color"));
    assert!(known_fields(&config, &state).contains("status"));
    let at = Timestamp { secs: 0, nanos: 0 };
    let set = given(&[("title", "2"), ("color", "3")]);
    let more = vec![("age".to_string(), parse_json("4").unwrap())];
    let events = field_events("a", set, &more, at);
    assert_eq!(events.len(), 2);
    assert!(events[0].op == OpType::Update && events[1].op == OpType::Append);
    let say = |state: &StrMap<TaskState>, allow: bool| {
        vet_new_fields(&events, state, &config, allow)
    };
    assert_eq!(
        say(&state, false).unwrap_err(),
        "no task uses the field name(s) age, color yet - \
         check the spelling, or pass --new-field to add them"
    );
    assert_eq!(say(&state, true).unwrap(), ["age", "color"]);
    // The first task gives the names.
    assert_eq!(say(&StrMap::new(), false).unwrap(), ["age", "color", "title"]);
    let known = known_fields(&config, &state);
    assert_eq!(introduced_fields(&events, &known), ["age", "color"]);
}

#[test]
fn operator_words_use_the_stored_names() {
    let mut workflow = Config::default().workflow;
    workflow.status_field = "state".to_string();
    let words = |k: &str| vec![(k.to_string(), parse_json("\"x\"").unwrap())];
    let named = canonicalize_field_pairs(&words("notes"), &workflow).unwrap();
    assert_eq!(pairs(&named), [pair("notes", "\"x\"")]);
    assert!(canonicalize_field_pairs(&words("state"), &workflow).is_err());
    assert!(canonicalize_field_pairs(&words("status"), &workflow).is_err());
    assert!(nothing_to_subtract(&Vec::new()).is_ok());
    assert_eq!(
        nothing_to_subtract(&words("n")).unwrap_err(),
        "`n-=...` needs a declared number or set field"
    );
}

#[test]
fn appended_words_of_a_new_task_are_folded_in() {
    let more: Vec<(String, Json)> = [("notes", "\"b\""), ("notes", "\"c\""), ("new", "\"d\"")]
        .iter()
        .map(|(k, v)| (k.to_string(), parse_json(v).unwrap()))
        .collect();
    let all = initial_fields(given(&[("notes", "\"a\"")]), &more);
    let text = |k: &str| all.get(k).map(compact_text);
    assert_eq!(text("notes").as_deref(), Some("\"a\\nb\\nc\""));
    assert_eq!(text("new").as_deref(), Some("\"d\""));
}

#[test]
fn words_are_completed_without_a_store() {
    let names = bare_criteria("");
    assert!(names.contains(&"id".to_string()));
    assert_eq!(bare_criteria("st"), names);
    assert!(bare_criteria("status=o").is_empty());
    assert!(built_in_names().contains("id"));
}
