//! What the reading commands give: status, show, trees, plans, watches.

use taska::commands::{
    cmd_config, cmd_dep_group, cmd_list, cmd_prime, cmd_ready, cmd_show, cmd_status, dep_cycles,
    dep_plan, dep_tree, ConfigAction, ConfigStep, DepAction, DepStep,
};
use taska::config::{Config, TimestampConfig, WorkflowConfig};
use taska::display::{DisplayArgs, OutputArgs, OutputFormat};
use taska::graph::{
    dependency_cycles, reachability_counts, ready_tasks, subtask_progress,
    validate_and_sort_dependencies,
};
use taska::json::{compact_text, parse_json, Json};
use taska::messages::{compacted, is_yes, render_conflicts, render_orphans, resolved};
use taska::model::{MutationEvent, OpType, TaskState, Timestamp};
use taska::read::{rename_to_display, SchemaReading, Warning};
use taska::report::{
    dep_write, render_diff_lines, render_status_human, render_warnings, status_to_json_value,
    watch_to_human, watch_to_json_value,
};
use taska::resolve;
use taska::show::show;
use taska::status::{status_summary, StatusSummary};
use taska::store::Store;
use taska::strmap::{StrMap, StrSet};
use taska::watch::{
    collect, must_read, parse_duration, poll, watch_step, ChangedTask, Stamp, WatchStage, WatchStep,
};

const STATUS_FIELD: &str = "state";
const BLOCKER: &str = "needs";

fn js(t: &str) -> Json {
    parse_json(t).unwrap()
}

fn at(secs: i64) -> Timestamp {
    Timestamp { secs, nanos: 0 }
}

fn task_rel(id: &str, rel: &str, targets: &[&str], fields: &[(&str, &str)]) -> TaskState {
    let mut t = TaskState::blank(id);
    if !targets.is_empty() {
        t.relationships.insert(rel.to_string(), targets.iter().map(|s| s.to_string()).collect());
    }
    for (k, v) in fields {
        t.custom_fields.insert(k.to_string(), js(v));
    }
    t
}

fn state(tasks: Vec<TaskState>) -> StrMap<TaskState> {
    let mut m = StrMap::new();
    for t in tasks {
        m.insert(t.id.clone(), t);
    }
    m
}

fn one(x: &str) -> StrSet {
    let mut s = StrSet::new();
    s.insert(x.to_string());
    s
}

fn counts_and_partitions(status_field: &str, blocker: &str) -> StatusSummary {
    let mut workflow = WorkflowConfig::default();
    workflow.status_field = status_field.to_string();
    let todo = (status_field, "\"todo\"");
    let st = state(vec![
        task_rel("a", blocker, &[], &[todo]),                            // ready (no deps)
        task_rel("b", blocker, &["a"], &[todo]),                         // blocked by a
        task_rel("c", blocker, &[], &[(status_field, "\"closed\"")]),    // done
        task_rel("d", blocker, &["c"], &[todo]),                         // ready (dep done)
        task_rel("e", blocker, &[], &[]),                                // no status -> ready
    ]);
    let s = status_summary(&st, &workflow, &one(blocker)).ok().unwrap();

    assert_eq!(s.total, 5);
    assert_eq!(s.by_status.get("todo"), Some(&3));
    assert_eq!(s.by_status.get("closed"), Some(&1));
    assert_eq!(s.no_status, 1);
    assert_eq!(s.closed, 1, "one done task");
    assert_eq!(s.ready, 3, "a, d, e");
    assert_eq!(s.blocked, 1, "b");
    // Among not-done tasks, ready and blocked partition the set.
    let not_done = s.total - s.closed;
    assert_eq!(s.ready + s.blocked, not_done);
    s
}

#[test]
fn status_status_summary_counts_and_partitions_ready_blocked() {
    counts_and_partitions(STATUS_FIELD, BLOCKER);
}

#[test]
fn cli_status_summary_counts_and_partitions_ready_blocked() {
    let s = counts_and_partitions("status", "depends_on");
    // Human output names the sections and a `(unset)` bucket for no-status.
    let human = render_status_human(&s, 0, false);
    assert!(human.contains("Total"), "human: {human}");
    assert!(human.contains("By status:"), "human: {human}");
    assert!(human.contains("(unset)"), "no-status bucket shown: {human}");
    assert!(human.contains("Ready") && human.contains("Blocked"), "{human}");

    // JSON output is a single valid object with the computed fields.
    let json = compact_text(&status_to_json_value(&s, 0));
    let parsed: serde_json::Value = serde_json::from_str(&json).unwrap();
    assert_eq!(parsed["total"], 5);
    assert_eq!(parsed["ready"], 3);
    assert_eq!(parsed["blocked"], 1);
    assert_eq!(parsed["closed"], 1);
    assert_eq!(parsed["no_status"], 1);
    assert_eq!(parsed["by_status"]["todo"], 3);
}

fn sample() -> StatusSummary {
    let mut by_status = StrMap::new();
    by_status.insert("todo".to_string(), 3);
    by_status.insert("closed".to_string(), 1);
    StatusSummary { total: 5, by_status, no_status: 1, ready: 3, blocked: 1, closed: 1 }
}

#[test]
fn human_output_names_the_sections() {
    let human = render_status_human(&sample(), 357, false);
    assert!(human.contains("Total"), "human: {human}");
    assert!(human.contains("By status:"), "human: {human}");
    assert!(human.contains("(unset)"), "no-status bucket shown: {human}");
    assert!(human.contains("Ready") && human.contains("Blocked"), "{human}");
    assert!(human.contains("Seq") && human.contains("357"), "seq: {human}");
    assert_eq!(
        human,
        "Total        5\n\nBy status:\n  closed     1\n  todo       3\n  (unset)    1\n\n\
         Ready        3\nBlocked      1\nClosed       1\n\nSeq        357"
    );
}

#[test]
fn json_output_is_one_object_with_the_fields() {
    let text = compact_text(&status_to_json_value(&sample(), 357));
    let parsed: serde_json::Value = serde_json::from_str(&text).unwrap();
    assert_eq!(parsed["total"], 5);
    assert_eq!(parsed["ready"], 3);
    assert_eq!(parsed["blocked"], 1);
    assert_eq!(parsed["closed"], 1);
    assert_eq!(parsed["no_status"], 1);
    assert_eq!(parsed["by_status"]["todo"], 3);
    assert_eq!(parsed["seq"], 357);
}

fn no_schema() -> SchemaReading {
    SchemaReading { report: Vec::new(), defaults: StrMap::new() }
}

fn event(op: OpType, id: &str, seq: u64, fields: &[(&str, &str)]) -> MutationEvent {
    let mut payload = StrMap::new();
    for (k, v) in fields {
        payload.insert(k.to_string(), js(v));
    }
    let mut e = MutationEvent::new(op, id, payload, at(1000 + seq as i64));
    e.seq = seq;
    e
}

fn store_without_timestamps(mutations: Vec<MutationEvent>) -> Store {
    let mut config = Config::default();
    config.timestamps = TimestampConfig {
        create_time: String::new(),
        update_time: String::new(),
        close_time: String::new(),
    };
    Store { config, baseline: Vec::new(), mutations }
}

fn out(format: OutputFormat) -> OutputArgs {
    OutputArgs { format, no_color: true }
}

fn display(format: OutputFormat, full: bool, columns: Option<&[&str]>) -> DisplayArgs {
    DisplayArgs {
        output: out(format),
        full,
        columns: columns.map(|c| c.iter().map(|s| s.to_string()).collect()),
        sort: None,
        reverse: false,
        layout: None,
    }
}

fn ids(names: &[&str]) -> Vec<String> {
    names.iter().map(|s| s.to_string()).collect()
}

#[test]
fn show_renders_known_task_and_errors_on_unknown() {
    let store = store_without_timestamps(vec![event(OpType::Create, "api", 1, &[])]);
    let shown = |names: &[&str]| {
        let d = display(OutputFormat::Human, false, None);
        cmd_show(&store, &no_schema(), &ids(names), d, false)
    };
    assert!(shown(&["api"]).is_ok());
    assert!(shown(&["nope"]).is_err(), "unknown id must error");
    // Any unknown id among several still errors.
    assert!(
        shown(&["api", "nope"]).is_err(),
        "an unknown id alongside a known one must error"
    );
}

#[test]
fn show_accepts_multiple_ids_deduplicated() {
    let store = store_without_timestamps(vec![
        event(OpType::Create, "api", 1, &[]),
        event(OpType::Create, "web", 2, &[]),
    ]);
    // Several ids in one call, with a duplicate that should collapse.
    let outcome = show(&store, &no_schema(), &ids(&["web", "api", "web"])).ok().unwrap();
    let got: Vec<&str> = outcome.tasks.iter().map(|t| t.id.as_str()).collect();
    assert_eq!(got, ["web", "api"], "deduplicated, first-occurrence order");

    let d = display(OutputFormat::Human, false, None);
    assert!(cmd_show(&store, &no_schema(), &ids(&["web", "api"]), d, false).is_ok());
}

#[test]
fn show_full_columns_cover_every_field_and_unknown_errors() {
    let store = store_without_timestamps(vec![event(
        OpType::Create,
        "api",
        1,
        &[("status", "\"open\""), ("priority", "3")],
    )]);
    let tasks = show(&store, &no_schema(), &ids(&["api"])).ok().unwrap().tasks;
    let cols = taska::display::full_columns(&tasks, &taska::config::DisplayConfig::default());
    assert_eq!(
        cols,
        ["id", "status", "deps", "priority"],
        "canonical present-only set: {cols:?}"
    );
    let json = taska::display::render_json(&tasks, &cols);
    assert!(json.contains(r#""status":"open""#), "show full: {json}");
    assert!(json.contains(r#""priority":3"#), "show full: {json}");

    let shown = |id: &str| {
        let d = display(OutputFormat::Human, false, None);
        cmd_show(&store, &no_schema(), &ids(&[id]), d, false)
    };
    assert!(shown("api").is_ok());
    assert!(shown("nope").is_err(), "unknown id must error");
}

#[test]
fn parse_duration_sums_unit_groups() {
    assert_eq!(parse_duration("10s").unwrap(), 10_000);
    assert_eq!(parse_duration("1m55s").unwrap(), 115_000);
    assert_eq!(parse_duration("2h").unwrap(), 7_200_000);
    assert_eq!(parse_duration("500ms").unwrap(), 500);
    assert_eq!(parse_duration("1h30m").unwrap(), 90 * 60_000);
}

#[test]
fn durations_that_follow_each_other_add_up() {
    for (a, b) in [("1h", "30m"), ("90s", "2m"), ("1h30m", "15s")] {
        let both = parse_duration(&format!("{a}{b}")).unwrap();
        assert_eq!(both, parse_duration(a).unwrap() + parse_duration(b).unwrap());
    }
}

#[test]
fn parse_duration_rejects_garbage() {
    assert!(parse_duration("").is_err(), "empty");
    assert!(parse_duration("abc").is_err(), "no number");
    assert!(parse_duration("10").is_err(), "missing unit");
    assert!(parse_duration("10x").is_err(), "unknown unit");
}

/// `epic` has the subtask `child`, which depends on `lib`.
fn forest() -> Store {
    let edge = |id: &str, rel: &str, target: &str, seq: u64| {
        event(
            OpType::AddEdge,
            id,
            seq,
            &[("rel", &format!("\"{rel}\"")), ("target", &format!("\"{target}\""))],
        )
    };
    store_without_timestamps(vec![
        event(OpType::Create, "epic", 1, &[("status", "\"todo\"")]),
        event(OpType::Create, "child", 2, &[("status", "\"todo\""), ("title", "\"Kid\"")]),
        event(OpType::Create, "lib", 3, &[("status", "\"closed\"")]),
        edge("epic", "has_subtask", "child", 4),
        edge("child", "depends_on", "lib", 5),
    ])
}

#[test]
fn trees_show_subtasks_and_dependencies() {
    let tree = |roots: &[&str], open: bool, format: OutputFormat| {
        dep_tree(&forest(), &no_schema(), &ids(roots), open, &None, false, &out(format), false)
    };
    let text = tree(&["epic"], false, OutputFormat::Human).ok().unwrap().out.join("\n");
    let lines: Vec<&str> = text.lines().collect();
    assert_eq!(lines.len(), 3, "{text}");
    assert!(lines[0].starts_with("epic") && lines[0].ends_with("[subtasks 0/1]"), "{text}");
    assert!(lines[1].starts_with("└─ [ ] child") && lines[1].contains("Kid"), "{text}");
    assert!(lines[2].contains("└─ ✓ lib"), "{text}");
    // Done subtrees are left out on request.
    let open = tree(&["epic"], true, OutputFormat::Human).ok().unwrap().out.join("\n");
    assert!(!open.contains("lib"), "{open}");
    let json = tree(&["child"], false, OutputFormat::Jsonl).ok().unwrap().out.join("\n");
    assert!(json.contains("\"id\":\"child\"") && json.contains("\"id\":\"lib\""), "{json}");
    assert_eq!(
        tree(&["nope"], false, OutputFormat::Human).err().as_deref(),
        Some("no task `nope`")
    );
}

#[test]
fn plans_put_prerequisites_first() {
    let plan = |goals: &[&str], critical: bool| {
        dep_plan(&forest(), &no_schema(), &ids(goals), critical, &out(OutputFormat::Human), false)
    };
    let text = plan(&["epic"], false).ok().unwrap().out.join("\n");
    let (child, epic) = (text.find("child").unwrap(), text.find("epic").unwrap());
    assert!(child < epic && !text.contains("lib"), "done tasks are not planned: {text}");
    assert!(plan(&["epic"], true).is_ok());
    assert!(plan(&["nope"], false).is_err());
    let none = dep_cycles(&forest(), &no_schema(), &out(OutputFormat::Jsonl), false);
    assert!(none.err.is_empty());
}

#[test]
fn circles_are_found_and_refused() {
    let st = state(vec![
        task_rel("a", BLOCKER, &["b"], &[]),
        task_rel("b", BLOCKER, &["a"], &[]),
        task_rel("c", BLOCKER, &["a"], &[]),
    ]);
    assert_eq!(dependency_cycles(&st, &one(BLOCKER)), vec![ids(&["a", "b"])]);
    assert!(validate_and_sort_dependencies(&st, &one(BLOCKER)).is_err());
    assert!(dependency_cycles(&st, &one("other")).is_empty());
    let order = validate_and_sort_dependencies(
        &state(vec![task_rel("a", BLOCKER, &["b"], &[]), task_rel("b", BLOCKER, &[], &[])]),
        &one(BLOCKER),
    );
    assert_eq!(order.ok().unwrap(), ["b", "a"]);
}

#[test]
fn edges_are_drafted_or_refused() {
    let step = |action: DepAction| cmd_dep_group(&forest(), &no_schema(), &action, at(0), false);
    let add = |task: &str, edges: &[&str]| DepAction::Add { task: task.to_string(), edges: ids(edges) };
    let done = step(add("epic", &["relates_to=lib"])).ok().unwrap();
    assert!(matches!(
        &done,
        DepStep::Write { events, task, .. } if events.len() == 1 && task == "epic"
    ));
    assert_eq!(dep_write("epic", "added", 1), "added 1 edge(s) on `epic`");
    assert_eq!(dep_write("epic", "added", 0), "no changes on `epic`");
    let err = |action: DepAction| step(action).err().unwrap();
    assert_eq!(err(add("epic", &["nonsense"])), "invalid edge `nonsense` (expected type=target)");
    assert!(err(add("epic", &["frobs=lib"])).starts_with("unknown relationship type `frobs`"));
    assert!(err(add("epic", &["depends_on=child"])).contains("only one blocking relationship"));
    assert!(err(add("lib", &["has_subtask=child"])).contains("only one parent"));
    assert!(step(DepAction::Remove { task: "epic".to_string(), edges: ids(&["has_subtask=child"]) })
        .is_ok());
}

#[test]
fn lists_are_printed() {
    let store = forest();
    let d = || display(OutputFormat::Human, false, Some(&["id", "status"]));
    let all = cmd_list(&store, &no_schema(), &Vec::new(), false, false, d(), false).ok().unwrap();
    assert_eq!(all.out.join("\n"), "ID     STATUS\nchild  todo\nepic   todo\nlib    closed");
    let ready = cmd_ready(&store, &no_schema(), &d(), false).ok().unwrap();
    assert_eq!(ready.out.join("\n"), "ID     STATUS\nchild  todo");
    let none = cmd_list(&store, &no_schema(), &ids(&["status=x"]), false, false, d(), false);
    assert!(none.ok().unwrap().out[0].starts_with('('));
    assert!(cmd_list(&store, &no_schema(), &ids(&["bad"]), false, false, d(), false).is_err());
}

#[test]
fn settings_are_read_checked_and_written() {
    let file = "[workflow]\ndone_status = \"closed\"\n";
    let root = || toml::Value::Table(file.parse::<toml::Table>().unwrap());
    let step = |action: ConfigAction| cmd_config(&forest(), &no_schema(), root(), file, &action);
    let key = "workflow.done_status".to_string();
    match step(ConfigAction::Get { key: key.clone() }).ok().unwrap() {
        ConfigStep::Print(p) => assert_eq!(p.out, ["closed"]),
        ConfigStep::Write { .. } => panic!("a read writes nothing"),
    }
    match step(ConfigAction::List).ok().unwrap() {
        ConfigStep::Print(p) => assert_eq!(p.out, ["workflow.done_status = closed"]),
        ConfigStep::Write { .. } => panic!("a listing writes nothing"),
    }
    match step(ConfigAction::Assign { key, value: "done".to_string() }).ok().unwrap() {
        ConfigStep::Write { file, .. } => {
            assert_eq!(file, "[workflow]\ndone_status = \"done\"\n");
        }
        ConfigStep::Print(_) => panic!("a setting is written"),
    }
    assert!(step(ConfigAction::Validate).is_ok());
    assert!(step(ConfigAction::Get { key: "nope".to_string() }).is_err());
    // A date that is none cannot be shown.
    let none = toml::value::Datetime { date: None, time: None, offset: None };
    let mut table = toml::Table::new();
    table.insert("d".to_string(), toml::Value::Array(vec![toml::Value::Datetime(none)]));
    for action in [ConfigAction::Get { key: "d".to_string() }, ConfigAction::List] {
        let root = toml::Value::Table(table.clone());
        let said = cmd_config(&forest(), &no_schema(), root, file, &action);
        assert_eq!(said.err().as_deref(), Some("the value of `d` holds a date that is none"));
    }
}

#[test]
fn watching_reports_what_changed() {
    let store = store_without_timestamps(vec![
        event(OpType::Create, "a", 1, &[("status", "\"todo\"")]),
        event(OpType::Create, "b", 2, &[("status", "\"todo\"")]),
        event(OpType::Update, "a", 3, &[("status", "\"closed\"")]),
    ]);
    let changed = |since: u64| poll(&store, &Vec::new(), false, false, since).ok().unwrap();
    assert_eq!(changed(3).len(), 0);
    let last = changed(2);
    assert_eq!(last.len(), 1);
    assert_eq!(last[0].id, "a");
    assert!(last[0].before.is_some() && last[0].after.is_some());
    assert!(changed(0).iter().all(|u| u.before.is_none()));
    // A cursor from before the log is refused.
    let mut cut = store_without_timestamps(vec![event(OpType::Create, "a", 9, &[])]);
    cut.mutations[0].seq = 9;
    let err = poll(&cut, &Vec::new(), false, false, 3).err().unwrap();
    assert!(err.starts_with("cursor seq 3 predates the retained log (oldest is 9)"), "{err}");

    let task = |id: &str, removed: &[&str], added: &[&str]| ChangedTask {
        id: id.to_string(),
        removed: ids(removed),
        added: ids(added),
    };
    let kept = collect(&vec![task("a", &[], &[]), task("b", &["x"], &["y"])]);
    assert_eq!(kept.len(), 1);
    let human = watch_to_human(&kept, false);
    assert!(human.contains("b") && human.contains("- x") && human.contains("+ y"), "{human}");
    assert!(compact_text(&watch_to_json_value(&kept)).contains("\"b\""));
    assert_eq!(
        render_diff_lines(&ids(&["x"]), &ids(&["y"]), true),
        "\x1b[31m- x\x1b[0m\n\x1b[32m+ y\x1b[0m"
    );
}

#[test]
fn orphans_are_found_and_dropped() {
    let mut store = store_without_timestamps(vec![
        event(OpType::Create, "a", 1, &[]),
        event(OpType::Update, "ghost", 2, &[("x", "1")]),
    ]);
    let marker = r#"{"conflicts": [{"task_id": "a", "field": "title", "ours": 1, "theirs": 2, "kept": "ours"}]}"#;
    assert_eq!(resolve::marker_conflicts(marker).ok().unwrap().len(), 1);
    assert!(resolve::marker_conflicts("{}").ok().unwrap().is_empty());
    let wrong = serde_json::from_str::<serde_json::Value>("{,").unwrap_err().to_string();
    assert_eq!(resolve::plan(&store, &Some("{,".to_string())).err(), Some(wrong));
    let plan = resolve::plan(&store, &Some(marker.to_string())).ok().unwrap();
    assert_eq!(plan.orphans.len(), 1);
    assert_eq!(plan.orphans[0].seq, 2);
    let lines = render_orphans(&plan.orphans);
    assert_eq!(lines[1], "  - seq 2: Update `ghost`");
    let conflicts = render_conflicts(&plan.conflicts);
    assert_eq!(conflicts[1], "  - `a`.title: ours=1 / theirs=2 -> kept ours");
    assert_eq!(resolve::apply(&mut store, &plan, true), (true, 1));
    assert_eq!(store.mutations.len(), 1);
    let again = resolve::plan(&store, &None).ok().unwrap();
    assert!(again.orphans.is_empty() && again.conflicts.is_none());
    assert_eq!(resolve::apply(&mut store, &again, true), (false, 0));
    assert_eq!(resolved(false, 2), ["Dropped 2 orphaned event(s) from the log."]);
}

#[test]
fn warnings_and_answers_read_as_text() {
    let lines = render_warnings(&vec![
        Warning::Orphans(2),
        Warning::NonConformance(ids(&["`a`: bad", "`b`: bad"])),
    ]);
    assert!(lines[0].starts_with("taska: warning: 2 orphaned event(s)"));
    assert!(lines[1].contains("2 task(s) do not conform") && lines[1].contains("`a`: bad"));
    assert!(is_yes("y\n") && is_yes("YES") && !is_yes("") && !is_yes("no"));
    assert_eq!(
        compacted(&taska::compact::CompactOutcome::NothingToDo { log_len: 1, keep_events: 2 }),
        "Nothing to compact (1 event(s) in log, keep_events = 2)"
    );
}

#[test]
fn reading_uses_the_configured_names_and_times() {
    let mut config = Config::default();
    config.workflow.status_field = STATUS_FIELD.to_string();
    let st = state(vec![task_rel("a", BLOCKER, &[], &[("status", "\"todo\"")])]);
    let named = rename_to_display(&st, &config);
    let a = named.get("a").unwrap();
    assert_eq!(a.custom_fields.get(STATUS_FIELD).map(compact_text).as_deref(), Some("\"todo\""));
    assert!(!a.custom_fields.contains_key("status"));

    // Times are shown as RFC 3339 in UTC.
    let store = Store {
        config: Config::default(),
        baseline: Vec::new(),
        mutations: vec![event(OpType::Create, "a", 1, &[])],
    };
    let shown = show(&store, &no_schema(), &ids(&["a"])).ok().unwrap();
    let time = shown.tasks[0].custom_fields.get("create_time").map(compact_text);
    assert_eq!(time.as_deref(), Some("\"1970-01-01T00:16:41+00:00\""));
}

#[test]
fn a_watch_waits_holds_out_and_ends() {
    let step = |stage: WatchStage, found: bool, left: u64| watch_step(stage, found, left, 10_000);
    assert_eq!(step(WatchStage::Looking, true, 60_000), WatchStep::HoldOut(10_000));
    assert_eq!(step(WatchStage::Looking, true, 300), WatchStep::HoldOut(300));
    assert_eq!(step(WatchStage::Holding, true, 0), WatchStep::Emit);
    assert_eq!(step(WatchStage::Looking, false, 60_000), WatchStep::Sleep(1000));
    assert_eq!(step(WatchStage::Holding, false, 40), WatchStep::Sleep(40));
    assert_eq!(step(WatchStage::Looking, false, 0), WatchStep::GiveUp);
    let stamp = |len: u64, secs: i64| Some(Stamp { len, written: at(secs) });
    assert!(must_read(None, None) && must_read(stamp(1, 1), None));
    assert!(must_read(stamp(2, 1), stamp(1, 1)) && must_read(stamp(1, 2), stamp(1, 1)));
    assert!(!must_read(stamp(1, 1), stamp(1, 1)));
}

#[test]
fn status_and_primer_are_printed() {
    let store = forest();
    let status = |current: bool, format: OutputFormat| {
        cmd_status(&store, &no_schema(), current, &out(format), false).ok().unwrap().out
    };
    assert_eq!(status(true, OutputFormat::Human), ["5"]);
    assert_eq!(status(true, OutputFormat::Jsonl), ["{\"seq\":5}"]);
    assert!(status(false, OutputFormat::Human)[0].contains("Ready"));
    let guide = cmd_prime(&store, &no_schema(), &out(OutputFormat::Human)).ok().unwrap();
    assert!(guide.out[0].starts_with("# taska"));
    let facts = cmd_prime(&store, &no_schema(), &out(OutputFormat::Json)).ok().unwrap();
    assert!(facts.out[0].contains("\"done_status\": \"closed\""));
}

#[test]
fn graphs_are_counted() {
    let closed = [("status", "\"closed\"")];
    let st = state(vec![
        task_rel("epic", "has", &["x", "y"], &[]),
        task_rel("x", "has", &[], &closed),
        task_rel("y", "has", &["z"], &[]),
        task_rel("z", "has", &[], &[]),
    ]);
    let progress = subtask_progress(&st, &one("has"), "status", "closed");
    assert_eq!(progress.get("epic"), Some(&(1, 2)), "done of direct subtasks");
    assert_eq!(progress.get("y"), Some(&(0, 1)));
    assert_eq!(progress.get("z"), None, "no subtasks, no progress");
    // Open tasks that wait for a task, and that it waits for.
    let counts = reachability_counts(&st, &one("has"), "status", "closed");
    assert_eq!(counts.get("z"), Some(&(2, 0)));
    assert_eq!(counts.get("epic"), Some(&(0, 2)));
    assert_eq!(ready_tasks(&st, "status", "closed", &one("has")).ok().unwrap(), ["z"]);
}
