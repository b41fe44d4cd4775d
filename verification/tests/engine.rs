//! Replaying the log, retention, and folding.

use taska::compact::{compact, CompactOutcome};
use taska::config::{CompactionConfig, Config};
use taska::engine::Engine;
use taska::fields::{parse_field_ops, Content};
use taska::json::{compact_text, parse_json, Json};
use taska::model::{MutationEvent, OpType, TaskState, Timestamp};
use taska::store::{materialize, Store};
use taska::strmap::{Data, StrMap};

fn js(t: &str) -> Json {
    parse_json(t).unwrap()
}

fn fields(pairs: &[(&str, &str)]) -> StrMap<Json> {
    let mut m = StrMap::new();
    for (k, v) in pairs {
        m.insert(k.to_string(), js(v));
    }
    m
}

fn secs(n: i64) -> Timestamp {
    Timestamp { secs: n, nanos: 0 }
}

fn ev(op: OpType, id: &str, pairs: &[(&str, &str)]) -> MutationEvent {
    MutationEvent::new(op, id, fields(pairs), secs(100))
}

fn shown(task: &TaskState, field: &str) -> Option<String> {
    task.custom_fields.get(field).map(compact_text)
}

fn edges(task: &TaskState, rel: &str) -> Vec<String> {
    task.relationships.get(rel).map(|v| v.copy()).unwrap_or_default()
}

#[test]
fn materializes_timestamps_and_resets_close_on_reopen() {
    let base = 1_767_225_600;
    let mk = |seq: u64, op: OpType, pairs: &[(&str, &str)], at: i64| {
        let mut e = MutationEvent::new(op, "a", fields(pairs), secs(base + at));
        e.seq = seq;
        e
    };
    let mutations = vec![
        mk(1, OpType::Create, &[("status", "\"open\"")], 0),
        mk(2, OpType::Update, &[("status", "\"closed\"")], 10),
        mk(3, OpType::Update, &[("priority", "2")], 20),
        mk(4, OpType::Update, &[("status", "\"open\"")], 30),
        mk(5, OpType::Update, &[("status", "\"closed\"")], 40),
    ];
    let state = Engine::materialize_state(&Vec::new(), &mutations, "closed");
    let a = state.get("a").unwrap();
    assert_eq!(a.create_time, Some(secs(base)), "first Create's time");
    assert_eq!(a.update_time, Some(secs(base + 40)), "latest event's time");
    assert_eq!(a.close_time, Some(secs(base + 40)), "most recent close");
}

#[test]
fn open_task_has_create_and_update_but_no_close_time() {
    let mutations = vec![ev(OpType::Create, "a", &[("status", "\"open\"")])];
    let state = Engine::materialize_state(&Vec::new(), &mutations, "closed");
    let a = state.get("a").unwrap();
    assert!(a.create_time.is_some());
    assert!(a.update_time.is_some());
    assert!(a.close_time.is_none(), "an open task is never closed");
}

#[test]
fn replays_create_update_dep_and_delete() {
    let mutations = vec![
        ev(OpType::Create, "a", &[("status", "\"open\"")]),
        ev(OpType::Create, "b", &[]),
        ev(OpType::Update, "a", &[("status", "\"done\"")]),
        ev(OpType::AddEdge, "b", &[("target", "\"a\"")]),
        ev(OpType::Create, "c", &[]),
        ev(OpType::Delete, "c", &[]),
    ];
    let state = Engine::materialize_state(&Vec::new(), &mutations, "closed");
    assert_eq!(state.len(), 2, "c was deleted");
    assert_eq!(
        shown(state.get("a").unwrap(), "status").as_deref(),
        Some("\"done\""),
        "update overwrote create"
    );
    assert_eq!(state.get("b").unwrap().depends_on(), vec!["a".to_string()]);
}

#[test]
fn legacy_edge_op_aliases_and_payload_keys_replay() {
    // Older payload keys: `dep` for the target and `type` for the relation.
    let mutations = vec![
        ev(OpType::Create, "a", &[]),
        ev(OpType::Create, "b", &[]),
        ev(OpType::AddEdge, "b", &[("dep", "\"a\""), ("type", "\"relates_to\"")]),
        ev(OpType::AddEdge, "a", &[("dep", "\"b\"")]),
    ];
    let state = Engine::materialize_state(&Vec::new(), &mutations, "closed");
    assert_eq!(
        edges(state.get("b").unwrap(), "relates_to"),
        vec!["a".to_string()],
        "legacy typed edge lands under its rel"
    );
    assert_eq!(
        state.get("a").unwrap().depends_on(),
        vec!["b".to_string()],
        "legacy untyped edge defaults to depends_on"
    );
}

#[test]
fn append_accumulates_text_and_orphans_when_taskless() {
    let mutations = vec![
        ev(OpType::Create, "a", &[]),
        ev(OpType::Append, "a", &[("log", "\"first\"")]),
        ev(OpType::Append, "a", &[("log", "\"second\"")]),
        ev(OpType::Append, "ghost", &[("log", "\"x\"")]),
    ];
    let (state, orphans) = Engine::materialize_report(&Vec::new(), &mutations, "closed");
    assert_eq!(
        shown(state.get("a").unwrap(), "log").as_deref(),
        Some("\"first\\nsecond\""),
        "appends accumulate one entry per line"
    );
    assert_eq!(orphans.len(), 1, "append to a missing task is orphaned");
}

#[test]
fn typed_deps_route_to_field_or_map() {
    let mutations = vec![
        ev(OpType::Create, "a", &[]),
        ev(OpType::AddEdge, "a", &[("target", "\"b\"")]),
        ev(OpType::AddEdge, "a", &[("target", "\"c\""), ("rel", "\"depends_on\"")]),
        ev(OpType::AddEdge, "a", &[("target", "\"d\""), ("rel", "\"relates_to\"")]),
        ev(OpType::AddEdge, "a", &[("target", "\"e\""), ("rel", "\"relates_to\"")]),
        ev(OpType::RemoveEdge, "a", &[("target", "\"d\""), ("rel", "\"relates_to\"")]),
    ];
    let state = Engine::materialize_state(&Vec::new(), &mutations, "closed");
    let a = state.get("a").unwrap();
    assert_eq!(a.depends_on(), vec!["b".to_string(), "c".to_string()]);
    assert_eq!(edges(a, "relates_to"), vec!["e".to_string()]);
}

#[test]
fn removing_last_typed_edge_drops_the_map_entry() {
    let mutations = vec![
        ev(OpType::Create, "a", &[]),
        ev(OpType::AddEdge, "a", &[("target", "\"d\""), ("rel", "\"relates_to\"")]),
        ev(OpType::RemoveEdge, "a", &[("target", "\"d\""), ("rel", "\"relates_to\"")]),
    ];
    let state = Engine::materialize_state(&Vec::new(), &mutations, "closed");
    assert!(
        state.get("a").unwrap().relationships.is_empty(),
        "an emptied typed entry is removed, leaving a clean map"
    );
}

#[test]
fn mutations_overlay_the_baseline() {
    let mut rels = StrMap::new();
    rels.insert("depends_on".to_string(), vec!["x".to_string()]);
    let baseline = vec![TaskState {
        id: "a".to_string(),
        relationships: rels,
        custom_fields: fields(&[("status", "\"open\"")]),
        create_time: None,
        update_time: None,
        close_time: None,
    }];
    let mutations = vec![
        ev(OpType::Update, "a", &[("status", "\"done\"")]),
        ev(OpType::RemoveEdge, "a", &[("target", "\"x\"")]),
    ];
    let state = Engine::materialize_state(&baseline, &mutations, "closed");
    let a = state.get("a").unwrap();
    assert_eq!(shown(a, "status").as_deref(), Some("\"done\""));
    assert!(a.depends_on().is_empty(), "dep removed from baseline task");
}

#[test]
fn reports_orphaned_events_and_spares_normal_ones() {
    let mut mutations = vec![
        ev(OpType::Create, "a", &[("status", "\"open\"")]),
        ev(OpType::Update, "a", &[("status", "\"done\"")]),
        ev(OpType::Update, "ghost", &[("x", "1")]),
        ev(OpType::Create, "b", &[]),
        ev(OpType::Delete, "b", &[]),
        ev(OpType::AddEdge, "b", &[("target", "\"a\"")]),
        ev(OpType::Delete, "b", &[]),
    ];
    for (i, e) in mutations.iter_mut().enumerate() {
        e.seq = i as u64 + 1;
    }
    let (state, orphans) = Engine::materialize_report(&Vec::new(), &mutations, "closed");
    assert_eq!(state.len(), 1, "only `a` survives");
    assert_eq!(shown(state.get("a").unwrap(), "status").as_deref(), Some("\"done\""));
    assert_eq!(orphans, vec![3, 6, 7]);
}

#[test]
fn add_dep_is_idempotent() {
    let mutations = vec![
        ev(OpType::Create, "a", &[]),
        ev(OpType::AddEdge, "a", &[("target", "\"b\"")]),
        ev(OpType::AddEdge, "a", &[("target", "\"b\"")]),
    ];
    let state = Engine::materialize_state(&Vec::new(), &mutations, "closed");
    assert_eq!(
        state.get("a").unwrap().depends_on(),
        vec!["b".to_string()],
        "no duplicate dep"
    );
}

fn aged(days: i64, now: Timestamp) -> MutationEvent {
    MutationEvent::new(
        OpType::Create,
        "t",
        StrMap::new(),
        Timestamp { secs: now.secs - days * 86_400, nanos: now.nanos },
    )
}

#[test]
fn retention_split_by_count() {
    let now = secs(1_800_000_000);
    let events: Vec<_> = (0..10).map(|_| aged(0, now)).collect();
    assert_eq!(Engine::retention_split(&events, 3, 0, now), 7);
    assert_eq!(Engine::retention_split(&events, 100, 0, now), 0);
}

#[test]
fn retention_split_never_empties_the_log() {
    let now = secs(1_800_000_000);
    let events: Vec<_> = (0..3).map(|_| aged(0, now)).collect();
    assert_eq!(Engine::retention_split(&events, 0, 0, now), 2);
    assert_eq!(Engine::retention_split(&Vec::new(), 0, 0, now), 0);
}

#[test]
fn retention_split_keeps_union_of_count_and_time() {
    let now = secs(1_800_000_000);
    let mut events: Vec<_> = (0..5).map(|_| aged(10, now)).collect();
    events.extend((0..5).map(|_| aged(1, now)));
    assert_eq!(Engine::retention_split(&events, 2, 7, now), 5);
    assert_eq!(Engine::retention_split(&events, 2, 365, now), 0);
}

fn empty_store() -> Store {
    Store { config: Config::default(), baseline: Vec::new(), mutations: Vec::new() }
}

/// Creates a task from `key=value` words.
fn cmd_create(store: &mut Store, id: &str, words: &[&str]) {
    let words: Vec<String> = words.iter().map(|w| w.to_string()).collect();
    let reads: Vec<Content> = words.iter().map(|_| Content::Nothing).collect();
    let ops = parse_field_ops(&words, &reads).ok().unwrap();
    let none = StrMap::new();
    assert!(taska::write::create(store, id, ops.set, &none, true, secs(100)).is_ok());
}

fn state_of(store: &Store) -> StrMap<TaskState> {
    materialize(&store.config, &store.baseline, &store.mutations)
}

#[test]
fn create_then_materialize() {
    let mut store = empty_store();
    cmd_create(&mut store, "api", &["status=open", "priority=3"]);
    let state = state_of(&store);
    let api = state.get("api").unwrap();
    assert_eq!(shown(api, "status").as_deref(), Some("\"open\""));
    // `priority=3` is a JSON number, not a string.
    assert_eq!(shown(api, "priority").as_deref(), Some("3"));
}

fn folds_log_into_baseline() {
    let mut store = empty_store();
    cmd_create(&mut store, "a", &[]);
    cmd_create(&mut store, "b", &[]);
    let cfg = CompactionConfig { keep_events: 0, keep_days: 0 };
    let done = compact(&mut store, &cfg, secs(200));
    assert!(matches!(
        done,
        CompactOutcome::Compacted { folded: 1, baseline_tasks: 1, kept: 1 }
    ));
    assert_eq!(store.mutations.len(), 1, "one event retained");
    assert_eq!(store.baseline.len(), 1, "the rest folded");
    // A later task still goes to the log, over the baseline.
    cmd_create(&mut store, "c", &[]);
    assert_eq!(state_of(&store).len(), 3);
}

#[test]
fn cli_compact_folds_log_into_baseline() {
    folds_log_into_baseline();
}

#[test]
fn compact_compact_folds_log_into_baseline() {
    folds_log_into_baseline();
}

fn retains_recent_events() {
    let mut store = empty_store();
    for id in ["a", "b", "c", "d", "e"] {
        cmd_create(&mut store, id, &[]);
    }
    let cfg = CompactionConfig { keep_events: 2, keep_days: 0 };
    compact(&mut store, &cfg, secs(200));
    assert_eq!(store.mutations.len(), 2, "kept 2 recent events");
    assert_eq!(store.baseline.len(), 3, "folded 3 into baseline");
    assert_eq!(state_of(&store).len(), 5, "all tasks still visible");

    // A log within the policy is left as it is.
    let again = compact(&mut store, &cfg, secs(200));
    assert!(matches!(again, CompactOutcome::NothingToDo { log_len: 2, keep_events: 2 }));
}

#[test]
fn cli_compact_retains_recent_events() {
    retains_recent_events();
}

#[test]
fn compact_compact_retains_recent_events() {
    retains_recent_events();
}

#[test]
fn writing_numbers_on_from_the_highest() {
    let mut store = empty_store();
    cmd_create(&mut store, "a", &[]);
    cmd_create(&mut store, "b", &[]);
    let seqs: Vec<u64> = store.mutations.iter().map(|e| e.seq).collect();
    assert_eq!(seqs, vec![1, 2]);
    // Without a number left nothing is written.
    store.mutations[1].seq = u64::MAX;
    let refused = taska::write::delete(&mut store, "a", secs(1));
    assert_eq!(refused.err().as_deref(), Some("the log has no sequence number left"));
    assert_eq!(store.mutations.len(), 2);
}

fn drafted(op: OpType, id: &str, fields: &[(&str, &str)]) -> MutationEvent {
    let mut payload = StrMap::new();
    for (k, v) in fields {
        payload.insert(k.to_string(), parse_json(v).unwrap());
    }
    MutationEvent::new(op, id, payload, secs(200))
}

fn write(store: &mut Store, drafts: Vec<MutationEvent>) -> Result<usize, String> {
    taska::write::append_checked(store, drafts, Vec::new()).map(|o| o.written.len())
}

#[test]
fn writes_that_cannot_happen_are_refused_whole() {
    let mut store = empty_store();
    cmd_create(&mut store, "a", &[]);
    cmd_create(&mut store, "b", &[]);
    let none = StrMap::new();
    let again = taska::write::create(&mut store, "a", StrMap::new(), &none, true, secs(1));
    assert_eq!(again.err().unwrap().text(), "task `a` already exists");
    let gone = taska::write::delete(&mut store, "nope", secs(1));
    assert_eq!(gone.err().as_deref(), Some("no task `nope`"));
    // One event that cannot happen keeps the others out too.
    let mixed = vec![
        drafted(OpType::Update, "a", &[("x", "1")]),
        drafted(OpType::Update, "nope", &[("x", "1")]),
    ];
    assert_eq!(write(&mut store, mixed), Err("no task `nope`".to_string()));
    let edge = |to: &str| {
        drafted(OpType::AddEdge, "a", &[("target", &format!("\"{to}\"")), ("rel", "\"depends_on\"")])
    };
    assert_eq!(write(&mut store, vec![edge("nope")]), Err("no task `nope`".to_string()));
    assert_eq!(
        write(&mut store, vec![edge("a")]),
        Err("task `a` can't reference itself".to_string())
    );
    assert_eq!(store.mutations.len(), 2, "nothing was written");

    // A change is written once; made again it changes nothing.
    assert_eq!(write(&mut store, vec![edge("b")]), Ok(1));
    assert_eq!(write(&mut store, vec![edge("b")]), Ok(0));
    let set = || drafted(OpType::Update, "a", &[("x", "1")]);
    assert_eq!(write(&mut store, vec![set(), set()]), Ok(1));
    assert_eq!(write(&mut store, vec![set()]), Ok(0));
    assert_eq!(write(&mut store, vec![drafted(OpType::Update, "a", &[("y", "null")])]), Ok(0));
    // What is created and deleted is there and gone.
    assert!(taska::write::delete(&mut store, "b", secs(1)).is_ok());
    assert!(state_of(&store).get("b").is_none());
    assert!(state_of(&store).get("a").is_some());
}

#[test]
fn null_unsets_and_append_skips_null() {
    let mutations = vec![
        ev(OpType::Create, "a", &[("x", "1"), ("y", "\"t\"")]),
        ev(OpType::Update, "a", &[("x", "null")]),
        ev(OpType::Append, "a", &[("y", "null")]),
        ev(OpType::Append, "a", &[("y", "2")]),
    ];
    let state = Engine::materialize_state(&Vec::new(), &mutations, "closed");
    let a = state.get("a").unwrap();
    assert_eq!(shown(a, "x"), None, "null removes a field");
    assert_eq!(shown(a, "y").as_deref(), Some("\"t\\n2\""));
}

#[test]
fn fields_are_stored_under_their_keys_and_shown_under_their_names() {
    let mut workflow = Config::default().workflow;
    workflow.status_field = "state".to_string();
    let fields = |names: &[&str]| {
        let mut m = StrMap::new();
        for n in names {
            m.insert(n.to_string(), parse_json("\"x\"").unwrap());
        }
        m
    };
    let mut given = fields(&["state", "title", "type"]);
    assert!(taska::write::canonicalize_fields(&mut given, &workflow).is_ok());
    for k in ["status", "title", "task_type"] {
        assert!(given.contains_key(k), "{k}");
    }
    taska::read::rename_fields(&mut given, &workflow);
    for k in ["state", "title", "type"] {
        assert!(given.contains_key(k), "{k}");
    }
    assert_eq!(given.len(), 3);
    let mut twice = fields(&["state", "status"]);
    assert_eq!(
        taska::write::canonicalize_fields(&mut twice, &workflow).err().as_deref(),
        Some("`state` and `status` name the same field; set one of them")
    );
}

#[test]
fn an_appended_done_status_closes_the_task() {
    let mk = |seq: u64, op: OpType, pairs: &[(&str, &str)], at: i64| {
        let mut e = MutationEvent::new(op, "a", fields(pairs), secs(at));
        e.seq = seq;
        e
    };
    let log = vec![
        mk(1, OpType::Create, &[("title", "\"x\"")], 10),
        mk(2, OpType::Append, &[("status", "\"closed\"")], 20),
    ];
    let state = Engine::materialize_state(&Vec::new(), &log, "closed");
    let a = state.get("a").unwrap();
    assert_eq!(shown(a, "status").as_deref(), Some("\"closed\""));
    assert_eq!(a.close_time, Some(secs(20)));
    // More text makes it another status again.
    let mut longer = log;
    longer.push(mk(3, OpType::Append, &[("status", "\"again\"")], 30));
    let state = Engine::materialize_state(&Vec::new(), &longer, "closed");
    let a = state.get("a").unwrap();
    assert_eq!(shown(a, "status").as_deref(), Some("\"closed\\nagain\""));
    assert_eq!(a.close_time, None);
}

#[test]
fn no_task_has_an_edge_twice() {
    let add = |seq: u64, target: &str| {
        let mut e = ev(OpType::AddEdge, "a", &[("rel", "\"needs\""), ("target", target)]);
        e.seq = seq;
        e
    };
    let mut log = vec![ev(OpType::Create, "a", &[])];
    log.extend([add(2, "\"b\""), add(3, "\"c\""), add(4, "\"b\"")]);
    let state = Engine::materialize_state(&Vec::new(), &log, "closed");
    let a = state.get("a").unwrap();
    let held: Vec<Vec<String>> =
        (0..a.relationships.len()).map(|i| a.relationships.value_at(i).copy()).collect();
    assert_eq!(held, [vec!["b".to_string(), "c".to_string()]]);
}
