//! The primer: the facts of a store and the guide written from them.

use taska::config::{
    Config, FieldSchema, FieldSpec, RelKind, RelationshipDef, TaskTypeDef,
};
use taska::guide::{align, facts_json, render_guide};
use taska::json::{compact_text, parse_json};
use taska::model::{MutationEvent, OpType, Timestamp};
use taska::prime::{prime, PrimeFacts};
use taska::read::SchemaReading;
use taska::store::Store;
use taska::strmap::StrMap;

/// The names a store uses.
struct Names {
    status_field: &'static str,
    done: &'static str,
    mid: &'static str,
    initial: &'static str,
    type_field: &'static str,
    task_type: &'static str,
    title: &'static str,
    blocker: &'static str,
    blocker_inverse: &'static str,
}

const RENAMED: Names = Names {
    status_field: "state",
    done: "shipped",
    mid: "doing",
    initial: "queued",
    type_field: "sort_of",
    task_type: "ticket",
    title: "headline",
    blocker: "needs",
    blocker_inverse: "needed_by",
};

const PLAIN: Names = Names {
    status_field: "status",
    done: "closed",
    mid: "in_progress",
    initial: "todo",
    type_field: "type",
    task_type: "task",
    title: "title",
    blocker: "depends_on",
    blocker_inverse: "blocks",
};

fn spec(kind: &str, values: &[&str]) -> FieldSchema {
    FieldSchema::Full(Box::new(FieldSpec {
        kind: kind.to_string(),
        values: values.iter().map(|s| s.to_string()).collect(),
        transitions: StrMap::new(),
        required: true,
        default: None,
        min: None,
        max: None,
        pattern: None,
        min_len: None,
        max_len: None,
        min_items: None,
        max_items: None,
    }))
}

fn empty_store(config: Config) -> Store {
    Store { config, baseline: Vec::new(), mutations: Vec::new() }
}

fn store_with_schema(n: &Names) -> Store {
    let mut config = Config::default();
    config.workflow.status_field = n.status_field.to_string();
    config.workflow.done_status = n.done.to_string();
    config.workflow.default_status = n.initial.to_string();
    config.workflow.type_field = n.type_field.to_string();
    let mut fields = StrMap::new();
    fields.insert(n.status_field.to_string(), spec("enum", &[n.initial, n.mid, n.done]));
    fields.insert(n.title.to_string(), spec("string", &[]));
    fields.insert("notes".to_string(), spec("string", &[]));
    config
        .task_types
        .types
        .insert(n.task_type.to_string(), TaskTypeDef { closed: true, fields });
    config.relationships.types = StrMap::new();
    config.relationships.types.insert(
        n.blocker.to_string(),
        RelationshipDef { kind: RelKind::Blocker, inverse: n.blocker_inverse.to_string() },
    );
    empty_store(config)
}

fn facts_of(store: &Store) -> PrimeFacts {
    let schema = SchemaReading { report: Vec::new(), defaults: StrMap::new() };
    prime(store, &schema).ok().unwrap().facts
}

#[test]
fn facts_mirror_a_declared_schema() {
    // The facts must reflect the type, its status enum, required fields, and
    // the relationship's kind/inverse verbatim, under the store's names.
    let facts = facts_of(&store_with_schema(&RENAMED));

    assert_eq!(facts.status_field, RENAMED.status_field);
    assert_eq!(facts.done_status, RENAMED.done);
    assert_eq!(facts.default_status, RENAMED.initial);
    assert_eq!(facts.type_field, RENAMED.type_field);
    assert_eq!(facts.statuses, vec![RENAMED.initial, RENAMED.mid, RENAMED.done]);

    let task_type = facts
        .task_types
        .iter()
        .find(|t| t.name == RENAMED.task_type)
        .expect("the declared type");
    assert!(task_type.closed, "the type closes");
    let title =
        task_type.fields.iter().find(|f| f.name == RENAMED.title).expect("title field");
    assert!(title.required, "title is required");

    let blocker = facts
        .relationships
        .iter()
        .find(|r| r.name == RENAMED.blocker)
        .expect("blocker relationship");
    assert_eq!(blocker.kind, "blocker");
    assert_eq!(blocker.inverse, RENAMED.blocker_inverse);
}

fn store_renamed() -> Store {
    let mut config = Config::default();
    config.workflow.status_field = RENAMED.status_field.to_string();
    empty_store(config)
}

#[test]
fn facts_are_free_form_without_a_schema() {
    let facts = facts_of(&store_renamed());
    assert_eq!(facts.status_field, RENAMED.status_field);
    assert!(facts.statuses.is_empty(), "no declared status enum");
    assert!(facts.task_types.is_empty(), "no declared types");
}

#[test]
fn summary_counts_open_as_total_minus_closed() {
    // The log holds the status under its stored name.
    let mut store = store_renamed();
    for (i, (id, status)) in [("a", "\"open\""), ("b", "\"closed\"")].iter().enumerate() {
        let mut payload = StrMap::new();
        payload.insert("status".to_string(), parse_json(status).unwrap());
        let at = Timestamp { secs: 0, nanos: 0 };
        let mut e = MutationEvent::new(OpType::Create, id, payload, at);
        e.seq = i as u64 + 1;
        store.mutations.push(e);
    }
    let summary = facts_of(&store).summary;
    assert_eq!(summary.total, 2);
    assert_eq!(summary.closed, 1);
    assert_eq!(summary.open, 1, "open = total - closed");
}

fn guide() -> String {
    render_guide(&facts_of(&store_with_schema(&PLAIN)))
}

#[test]
fn guide_reflects_the_store_vocabulary() {
    let g = guide();
    assert!(g.contains("field `status`"), "status field named: {g}");
    assert!(g.contains("todo | in_progress | closed"), "status enum values: {g}");
    assert!(
        g.contains("ta update <id> status=closed"),
        "close example uses done status: {g}"
    );
    assert!(
        g.contains("`depends_on` (blocker, inverse `blocks`)"),
        "relationship described: {g}"
    );
    // The create example lists the required fields (any order) but not status,
    // which `create` stamps from the default.
    assert!(g.contains("ta create <id> type=task "), "create example: {g}");
    assert!(g.contains("title=\"...\""), "create lists title: {g}");
    assert!(g.contains("notes=\"...\""), "create lists notes: {g}");
    assert!(
        !g.contains("status=\"...\""),
        "create omits the stamped status field: {g}"
    );
}

#[test]
fn guide_explains_the_dynamic_schema_and_task_filing() {
    let g = guide();
    assert!(g.contains("Schema (dynamic"), "schema framed as dynamic: {g}");
    assert!(
        g.contains("config-driven") && g.contains("id, title, status"),
        "names the configured columns: {g}"
    );
    assert!(
        g.contains("File a task for each distinct piece of work"),
        "when to file: {g}"
    );
    assert!(
        g.contains("open or design questions"),
        "encourages recording open questions: {g}"
    );
    assert!(g.contains("ta dep add"), "encourages dependencies: {g}");
    assert!(
        g.contains("append to related tasks") && g.contains("notes+="),
        "encourages cross-task notes: {g}"
    );
    assert!(
        g.contains("notes=@-") && g.contains("notes=@FILE"),
        "documents stdin/file note input: {g}"
    );
    assert!(
        g.contains("unrelated to what you're starting"),
        "advises flushing unrelated pending changes first: {g}"
    );
}

#[test]
fn guide_is_free_form_when_no_schema_is_declared() {
    let g = render_guide(&facts_of(&empty_store(Config::default())));
    assert!(
        g.contains("free-form") && g.contains("any field name is accepted"),
        "explains the free-form fallback: {g}"
    );
}

#[test]
fn guide_has_no_ansi_escapes() {
    assert!(!guide().contains('\u{1b}'), "guide must be escape-free");
}

#[test]
fn json_serializes_the_facts() {
    let text = compact_text(&facts_json(&facts_of(&store_with_schema(&PLAIN))));
    let value: serde_json::Value = serde_json::from_str(&text).unwrap();
    assert_eq!(value["status_field"], "status");
    assert_eq!(value["done_status"], "closed");
    assert_eq!(value["statuses"][0], "todo");
    assert_eq!(value["summary"]["total"], 0);
    assert!(value["relationships"].is_array());
}

#[test]
fn commands_are_aligned() {
    let cmds = vec![
        ("ta a".to_string(), "first".to_string()),
        ("ta longer".to_string(), "second".to_string()),
    ];
    let out = align(&cmds);
    let at = |l: &str, w: &str| l.find(w).unwrap();
    let lines: Vec<&str> = out.lines().collect();
    assert_eq!(at(lines[0], "first"), at(lines[1], "second"), "{out}");
}
