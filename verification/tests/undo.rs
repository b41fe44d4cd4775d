//! Undo: what is selected, how it is taken back, and the events for it.

use std::collections::HashSet;

use taska::compensate::compensate;
use taska::config::Config;
use taska::engine::Engine;
use taska::json::{compact_text, parse_json, same_json, Json};
use taska::messages::{
    created, deleted, describe, render_undone, task_diff, undo_done, undo_preview, updated,
};
use taska::model::{MutationEvent, OpType, TaskState, Timestamp, REL_KEY, TARGET_KEY};
use taska::store::{materialize, Store};
use taska::strmap::{StrMap, StrSet};
use taska::undo::{
    apply, buried_compensations, committed_mutation_count, plan, scope_to_tasks, select_targets,
};
use taska::watch::{changed_tasks, WatchUpdate};

const STATUS_FIELD: &str = "state";
const BLOCKER: &str = "needs";
const INFO: &str = "mentions";
const HIER: &str = "part";

fn js(t: &str) -> Json {
    parse_json(t).unwrap()
}

fn now() -> Timestamp {
    Timestamp { secs: 1000, nanos: 0 }
}

fn fields(pairs: &[(&str, &str)]) -> StrMap<Json> {
    let mut m = StrMap::new();
    for (k, v) in pairs {
        m.insert(k.to_string(), js(v));
    }
    m
}

fn task_rel(id: &str, rel: &str, targets: &[&str], pairs: &[(&str, &str)]) -> TaskState {
    let mut t = TaskState::blank(id);
    if !targets.is_empty() {
        t.relationships.insert(rel.to_string(), targets.iter().map(|s| s.to_string()).collect());
    }
    t.custom_fields = fields(pairs);
    t
}

fn task(id: &str, deps: &[&str], pairs: &[(&str, &str)]) -> TaskState {
    task_rel(id, "depends_on", deps, pairs)
}

fn state(tasks: Vec<TaskState>) -> StrMap<TaskState> {
    let mut m = StrMap::new();
    for t in tasks {
        m.insert(t.id.clone(), t);
    }
    m
}

fn at(op: OpType, id: &str, seq: u64) -> MutationEvent {
    let mut e = MutationEvent::new(op, id, StrMap::new(), now());
    e.seq = seq;
    e
}

fn with(op: OpType, id: &str, seq: u64, pairs: &[(&str, &str)]) -> MutationEvent {
    let mut e = MutationEvent::new(op, id, fields(pairs), now());
    e.seq = seq;
    e
}

fn payload(e: &MutationEvent, k: &str) -> Option<String> {
    e.payload.get(k).map(compact_text)
}

fn ids(names: &[&str]) -> Vec<String> {
    names.iter().map(|s| s.to_string()).collect()
}

#[test]
fn scope_to_tasks_keeps_only_the_named_tasks_baseline_and_events() {
    let baseline = vec![task("a", &[], &[]), task("b", &[], &[]), task("c", &[], &[])];
    let muts = vec![
        at(OpType::Create, "a", 1),
        at(OpType::Update, "b", 2),
        at(OpType::Update, "a", 3),
        at(OpType::Create, "c", 4),
    ];
    let mut named = StrSet::new();
    named.insert("a".to_string());
    let (scoped_baseline, scoped_muts) = scope_to_tasks(&baseline, &muts, &named);
    assert_eq!(
        scoped_baseline.iter().map(|t| t.id.as_str()).collect::<Vec<_>>(),
        vec!["a"],
        "only the named task's baseline survives"
    );
    assert_eq!(
        scoped_muts.iter().map(|e| e.seq).collect::<Vec<_>>(),
        vec![1, 3],
        "only the named task's events survive, in order"
    );
}

#[test]
fn select_targets_walks_back_skipping_undos_and_already_undone() {
    let mut comp = at(OpType::Update, "a", 4);
    comp.undoes = Some(3);
    let log = vec![
        at(OpType::Create, "a", 1),
        at(OpType::Update, "a", 2),
        at(OpType::Update, "a", 3),
        comp,
    ];
    let seqs = |sel: Vec<usize>| sel.iter().map(|&i| log[i].seq).collect::<Vec<_>>();

    assert_eq!(seqs(select_targets(&log, None, 1).unwrap()), vec![2]);
    assert_eq!(seqs(select_targets(&log, None, 9).unwrap()), vec![2, 1]);
    assert_eq!(seqs(select_targets(&log, Some(1), 1).unwrap()), vec![1]);

    assert!(select_targets(&log, Some(3), 1).is_err(), "seq 3 already undone");
    assert!(select_targets(&log, Some(4), 1).is_err(), "seq 4 is an undo event");
    assert!(select_targets(&log, Some(99), 1).is_err(), "no such seq");
}

fn unsets_a_removed_field_with_null() {
    let from = state(vec![task("a", &[], &[("owner", "\"bob\"")])]);
    let to = state(vec![task("a", &[], &[])]);
    let events = compensate(&from, &to, &ids(&["a"]), now());
    assert_eq!(events.len(), 1, "one Update");
    assert_eq!(events[0].op, OpType::Update);
    assert_eq!(payload(&events[0], "owner").as_deref(), Some("null"), "removed field unset via null");
}

#[test]
fn undo_compensate_unsets_a_removed_field_with_null() {
    unsets_a_removed_field_with_null();
}

#[test]
fn cli_compensate_unsets_a_removed_field_with_null() {
    unsets_a_removed_field_with_null();
}

fn handles_create_delete_and_field_change(blocker: &str, status: &str) {
    let from = state(vec![
        task("a", &[], &[("x", "1")]),
        task("c", &[], &[(status, "\"open\"")]),
    ]);
    let to = state(vec![
        task_rel("b", blocker, &["dep1"], &[("y", "2")]),
        task("c", &[], &[(status, "\"closed\"")]),
    ]);
    let events = compensate(&from, &to, &ids(&["a", "b", "c"]), now());

    let a: Vec<_> = events.iter().filter(|e| e.task_id == "a").collect();
    assert_eq!(a.len(), 1);
    assert_eq!(a[0].op, OpType::Delete);

    let b: Vec<_> = events.iter().filter(|e| e.task_id == "b").collect();
    assert_eq!(b.len(), 2, "create + adddep");
    assert_eq!(b[0].op, OpType::Create);
    assert_eq!(payload(b[0], "y").as_deref(), Some("2"));
    assert_eq!(b[1].op, OpType::AddEdge);
    assert_eq!(payload(b[1], TARGET_KEY).as_deref(), Some("\"dep1\""));
    assert_eq!(
        payload(b[1], REL_KEY),
        Some(format!("\"{blocker}\"")),
        "compensating dep events carry their type"
    );

    let c: Vec<_> = events.iter().filter(|e| e.task_id == "c").collect();
    assert_eq!(c.len(), 1);
    assert_eq!(c[0].op, OpType::Update);
    assert_eq!(payload(c[0], status).as_deref(), Some("\"closed\""));
}

#[test]
fn undo_compensate_handles_create_delete_and_field_change() {
    handles_create_delete_and_field_change(BLOCKER, STATUS_FIELD);
}

#[test]
fn cli_compensate_handles_create_delete_and_field_change() {
    handles_create_delete_and_field_change("depends_on", "status");
}

fn reconciles_dependencies(blocker: &str) {
    let from = state(vec![task_rel("a", blocker, &["x"], &[])]);
    let to = state(vec![task_rel("a", blocker, &["y"], &[])]);
    let events = compensate(&from, &to, &ids(&["a"]), now());
    assert!(
        !events.iter().any(|e| e.op == OpType::Update),
        "no field changes -> no Update"
    );
    assert!(
        events.iter().any(|e| e.op == OpType::AddEdge
            && payload(e, TARGET_KEY).as_deref() == Some("\"y\"")),
        "adds y"
    );
    assert!(
        events.iter().any(|e| e.op == OpType::RemoveEdge
            && payload(e, TARGET_KEY).as_deref() == Some("\"x\"")),
        "removes x"
    );
}

#[test]
fn undo_compensate_reconciles_dependencies() {
    reconciles_dependencies(BLOCKER);
}

#[test]
fn cli_compensate_reconciles_dependencies() {
    reconciles_dependencies("depends_on");
}

#[test]
fn compensate_reconciles_typed_edges_per_type_and_target() {
    let f = task_rel("a", INFO, &["x", "y"], &[]);
    let t = task_rel("a", HIER, &["x"], &[]);
    let events = compensate(&state(vec![f]), &state(vec![t]), &ids(&["a"]), now());
    let got: Vec<_> = events
        .iter()
        .map(|e| (e.op, payload(e, REL_KEY), payload(e, TARGET_KEY)))
        .collect();
    let edge = |op: OpType, rel: &str, target: &str| {
        (op, Some(format!("\"{rel}\"")), Some(format!("\"{target}\"")))
    };
    assert!(
        got.contains(&edge(OpType::AddEdge, HIER, "x")),
        "adds the new typed edge: {got:?}"
    );
    assert!(
        got.contains(&edge(OpType::RemoveEdge, INFO, "x")),
        "removes the old type's edge to the same target: {got:?}"
    );
    assert!(
        got.contains(&edge(OpType::RemoveEdge, INFO, "y")),
        "removes the dropped edge: {got:?}"
    );
    assert_eq!(events.len(), 3, "no Update, nothing extra: {got:?}");
}

#[test]
fn describe_renders_absent_fields_and_deps() {
    assert_eq!(describe(None), "(absent)");
    let t = task("a", &["d1"], &[("status", "\"open\"")]);
    let out = describe(Some(&t));
    assert!(out.contains(r#""status":"open""#), "fields: {out}");
    assert!(out.contains("deps="), "deps shown: {out}");
    assert_eq!(out, r#"{"status":"open"} deps=["d1"]"#);

    let no_deps = task("b", &[], &[]);
    assert_eq!(describe(Some(&no_deps)), "{}", "empty fields, no deps");
}

fn store(mutations: Vec<MutationEvent>) -> Store {
    Store { config: Config::default(), baseline: Vec::new(), mutations }
}

fn title_of(store: &Store, id: &str) -> Option<String> {
    let state = materialize(&store.config, &store.baseline, &store.mutations);
    state.get(id).and_then(|t| t.custom_fields.get("title").map(compact_text))
}

#[test]
fn undo_of_local_events_truncates() {
    let mut s = store(vec![
        with(OpType::Create, "a", 1, &[("title", "\"one\"")]),
        with(OpType::Update, "a", 2, &[("title", "\"two\"")]),
    ]);
    let p = plan(&s, None, 1, false, 0, now()).unwrap().unwrap();
    assert_eq!(p.count, 1);
    assert!(!p.rewrites_committed_history);
    assert_eq!(
        render_undone(&p.undone),
        vec!["Undoing 1 event(s):".to_string(), "  seq 2: Update `a`".to_string()]
    );
    apply(&mut s, &p);
    assert_eq!(s.mutations.len(), 1, "the local event is gone");
    assert_eq!(title_of(&s, "a").as_deref(), Some("\"one\""));
}

#[test]
fn undo_of_committed_events_compensates() {
    let mut s = store(vec![
        with(OpType::Create, "a", 1, &[("title", "\"one\"")]),
        with(OpType::Update, "a", 2, &[("title", "\"two\"")]),
    ]);
    let p = plan(&s, None, 1, false, 2, now()).unwrap().unwrap();
    assert_eq!(p.last_seq(), 3);
    apply(&mut s, &p);
    assert_eq!(s.mutations.len(), 3, "history is kept");
    assert_eq!(s.mutations[2].undoes, Some(2));
    assert_eq!(title_of(&s, "a").as_deref(), Some("\"one\""));

    // What was undone is not undone again: the next one back is the creation.
    let q = plan(&s, None, 1, false, 3, now()).unwrap().unwrap();
    assert_eq!(q.undone.len(), 1);
    assert_eq!(q.undone[0].seq, 1);
    apply(&mut s, &q);
    assert_eq!(title_of(&s, "a"), None, "the task is gone");

    // Nothing is left to undo.
    assert!(plan(&s, None, 1, false, 4, now()).unwrap().is_none());
}

#[test]
fn undo_of_an_event_under_others_leaves_them() {
    let mut s = store(vec![
        with(OpType::Create, "a", 1, &[("title", "\"one\"")]),
        with(OpType::Update, "a", 2, &[("title", "\"two\"")]),
        with(OpType::Create, "b", 3, &[("title", "\"other\"")]),
    ]);
    let p = plan(&s, Some(2), 1, false, 0, now()).unwrap().unwrap();
    apply(&mut s, &p);
    assert_eq!(title_of(&s, "a").as_deref(), Some("\"one\""));
    assert_eq!(title_of(&s, "b").as_deref(), Some("\"other\""));
}

#[test]
fn removing_committed_events_is_flagged() {
    let mut s = store(vec![with(OpType::Create, "a", 1, &[]), with(OpType::Create, "b", 2, &[])]);
    let p = plan(&s, None, 1, true, 2, now()).unwrap().unwrap();
    assert!(p.rewrites_committed_history);
    assert_eq!(p.last_seq(), 1);
    assert!(plan(&s, Some(9), 1, false, 0, now()).is_err(), "no such event");
    apply(&mut s, &p);
    assert_eq!(s.mutations.len(), 1);
}

#[test]
fn a_buried_event_is_reversed_as_if_it_had_not_been() {
    let log = vec![
        with(OpType::Create, "a", 1, &[("title", "\"one\"")]),
        with(OpType::Update, "a", 2, &[("title", "\"two\"")]),
        with(OpType::Update, "a", 3, &[("owner", "\"x\"")]),
    ];
    let events = buried_compensations(
        &Config::default(),
        &Vec::new(),
        &log,
        &log,
        &vec![1usize],
        HashSet::new(),
        now(),
    );
    assert_eq!(events.len(), 1);
    assert_eq!(events[0].undoes, Some(2));
    assert_eq!(payload(&events[0], "title").as_deref(), Some("\"one\""));
    assert_eq!(payload(&events[0], "owner"), None, "the later event stands");
    let mut all = log;
    all.extend(events);
    let state = Engine::materialize_state(&Vec::new(), &all, "closed");
    let a = state.get("a").unwrap();
    assert_eq!(a.custom_fields.get("title").map(compact_text).as_deref(), Some("\"one\""));
    assert_eq!(a.custom_fields.get("owner").map(compact_text).as_deref(), Some("\"x\""));
}

#[test]
fn committed_events_are_counted_by_lines() {
    assert_eq!(committed_mutation_count(&None), 0);
    assert_eq!(committed_mutation_count(&Some("{}\n\n  \n{}".to_string())), 2);
}

#[test]
fn an_undo_is_previewed_and_reported() {
    let s = store(vec![
        with(OpType::Create, "a", 1, &[("title", "\"one\"")]),
        with(OpType::Update, "a", 2, &[("title", "\"two\"")]),
    ]);
    let p = plan(&s, None, 1, false, 0, now()).unwrap().unwrap();
    let diffs: Vec<String> = p.changes.iter().map(|_| "- x".to_string()).collect();
    assert_eq!(
        undo_preview(&p, &diffs),
        ["Undoing 1 event(s):", "  seq 2: Update `a`", "a:", "- x"]
    );
    let none: Vec<String> = p.changes.iter().map(|_| String::new()).collect();
    assert_eq!(undo_preview(&p, &none).len(), 2);
    assert_eq!(undo_done(3), "[seq:3] Undone.");
    assert_eq!(updated("a", Some(4)), "[seq:4] Updated task `a`");
    assert_eq!(updated("a", None), "`a` already up to date - no changes");
    assert_eq!(created("a"), "Created task `a`");
    assert_eq!(deleted("a", Some(5)), "[seq:5] Deleted task `a`");
}

#[test]
fn an_applied_undo_does_what_it_showed() {
    let log = || {
        vec![
            with(OpType::Create, "a", 1, &[("title", "\"one\""), ("n", "1")]),
            with(OpType::Create, "b", 2, &[]),
            with(OpType::Update, "a", 3, &[("title", "\"two\""), ("n", "null")]),
            with(OpType::Delete, "b", 4, &[]),
            with(OpType::Append, "a", 5, &[("title", "\"more\"")]),
        ]
    };
    for count in 1..6 {
        for committed in [0, 2, 5] {
            let mut s = store(log());
            let before = materialize(&s.config, &s.baseline, &s.mutations);
            let p = plan(&s, None, count, false, committed, now()).unwrap().unwrap();
            apply(&mut s, &p);
            let after = materialize(&s.config, &s.baseline, &s.mutations);
            for id in ["a", "b"] {
                match p.changes.iter().find(|c| c.id == id) {
                    Some(c) => {
                        assert_eq!(describe(c.before.as_ref()), describe(before.get(id)));
                        assert_eq!(describe(c.after.as_ref()), describe(after.get(id)));
                    }
                    None => assert_eq!(describe(before.get(id)), describe(after.get(id))),
                }
            }
        }
    }
}

#[test]
fn the_lines_of_a_changed_task_are_given() {
    let (was, is) = (task("a", &[], &[("n", "1")]), task("a", &[], &[("n", "2")]));
    let lines = |t: &TaskState| vec![describe(Some(t))];
    assert_eq!(task_diff(Some(&was), Some(&is)), (lines(&was), lines(&is)));
    assert_eq!(task_diff(Some(&was), Some(&was)), (Vec::new(), Vec::new()));
    let update = |id: &str, before: Option<TaskState>, after: Option<TaskState>| WatchUpdate {
        id: id.to_string(),
        before,
        after,
    };
    let again = task("b", &[], &[("n", "1")]);
    let found = changed_tasks(&vec![
        update("a", Some(was), Some(is)),
        update("b", Some(again), Some(task("b", &[], &[("n", "1")]))),
    ]);
    assert_eq!(found.len(), 1);
    assert_eq!(found[0].id, "a");
}

#[test]
fn undos_of_negative_zeros_give_equal_values() {
    let mut s = store(vec![
        with(OpType::Create, "a", 1, &[("n", "0.0")]),
        with(OpType::Update, "a", 2, &[("n", "-0.0")]),
        with(OpType::Update, "a", 3, &[("n", "1.5")]),
    ]);
    for left in ["-0.0", "0.0"] {
        let p = plan(&s, None, 1, false, s.mutations.len(), now()).unwrap().unwrap();
        apply(&mut s, &p);
        let state = materialize(&s.config, &s.baseline, &s.mutations);
        let held = state.get("a").unwrap().custom_fields.get("n").unwrap();
        assert!(same_json(held, &js(left)), "{left}");
    }
}
