//! The configuration: field kinds, constraints and validation.

use taska::config::{
    CompactionConfig, Config, FieldKind, FieldSchema, FieldSpec, Layout, OnConflict, RelKind,
    RelationshipConfig, RelationshipDef, TaskTypeDef, UntypedTasks, MIN_KEEP_EVENTS,
};
use taska::json::{compact_text, parse_json, Json};
use taska::model::{TaskState, DEPS_KEY, STATUS_KEY, TASK_TYPE_KEY};
use taska::strmap::StrMap;
use taska::template::{default_toml, render_toml};

fn text(v: &toml::Value) -> String {
    v.as_str().unwrap().to_string()
}

fn texts(v: &toml::Value) -> Vec<String> {
    v.as_array().unwrap().iter().map(text).collect()
}

fn number(v: &toml::Value) -> u64 {
    u64::try_from(v.as_integer().unwrap()).unwrap()
}

fn json(v: &toml::Value) -> Json {
    parse_json(&serde_json::to_string(v).unwrap()).unwrap()
}

fn blank_spec() -> FieldSpec {
    FieldSpec {
        kind: String::new(),
        values: Vec::new(),
        transitions: StrMap::new(),
        required: false,
        default: None,
        min: None,
        max: None,
        pattern: None,
        min_len: None,
        max_len: None,
        min_items: None,
        max_items: None,
    }
}

fn field(v: &toml::Value) -> FieldSchema {
    if let Some(kind) = v.as_str() {
        return FieldSchema::Short(kind.to_string());
    }
    let mut spec = blank_spec();
    for (k, v) in v.as_table().unwrap() {
        match k.as_str() {
            "type" => spec.kind = text(v),
            "values" => spec.values = texts(v),
            "transitions" => {
                for (from, to) in v.as_table().unwrap() {
                    spec.transitions.insert(from.clone(), texts(to));
                }
            }
            "required" => spec.required = v.as_bool().unwrap(),
            "default" => spec.default = Some(json(v)),
            "min" => spec.min = Some(json(v)),
            "max" => spec.max = Some(json(v)),
            "pattern" => spec.pattern = Some(text(v)),
            "min_len" => spec.min_len = Some(number(v)),
            "max_len" => spec.max_len = Some(number(v)),
            "min_items" => spec.min_items = Some(number(v)),
            "max_items" => spec.max_items = Some(number(v)),
            other => panic!("unknown key `{other}`"),
        }
    }
    FieldSchema::Full(Box::new(spec))
}

fn layout(v: &toml::Value) -> Layout {
    match v.as_str().unwrap() {
        "table" => Layout::Table,
        "list" => Layout::List,
        other => panic!("unknown layout `{other}`"),
    }
}

fn relationship(v: &toml::Value) -> RelationshipDef {
    let kind = match v.get("kind").or(v.get("type")).unwrap().as_str().unwrap() {
        "blocker" => RelKind::Blocker,
        "hierarchy" => RelKind::Hierarchy,
        "info" => RelKind::Info,
        other => panic!("unknown kind `{other}`"),
    };
    RelationshipDef { kind, inverse: v.get("inverse").map(text).unwrap_or_default() }
}

/// The configuration that a TOML document spells over the defaults.
fn load(source: &str) -> Config {
    let mut cfg = Config::default();
    let root: toml::Table = source.parse().unwrap();
    for (section, body) in &root {
        if section == "relationships" {
            cfg.relationships.types = StrMap::new();
            for (name, def) in body.as_table().unwrap() {
                cfg.relationships.types.insert(name.clone(), relationship(def));
            }
            continue;
        }
        for (k, v) in body.as_table().unwrap() {
            match (section.as_str(), k.as_str()) {
                ("compaction", "keep_events") => cfg.compaction.keep_events = number(v) as usize,
                ("compaction", "keep_days") => cfg.compaction.keep_days = number(v),
                ("workflow", "status_field") => cfg.workflow.status_field = text(v),
                ("workflow", "done_status") => cfg.workflow.done_status = text(v),
                ("workflow", "default_status") => cfg.workflow.default_status = text(v),
                ("workflow", "type_field") => cfg.workflow.type_field = text(v),
                ("workflow", "warn_nonconforming") => {
                    cfg.workflow.warn_nonconforming = v.as_bool().unwrap();
                }
                ("workflow", "untyped_tasks") => {
                    cfg.workflow.untyped_tasks = match v.as_str().unwrap() {
                        "allow" => UntypedTasks::Allow,
                        "warn" => UntypedTasks::Warn,
                        "deny" => UntypedTasks::Deny,
                        other => panic!("unknown policy `{other}`"),
                    };
                }
                ("merge", "on_conflict") => {
                    cfg.merge.on_conflict = match v.as_str().unwrap() {
                        "surface" => OnConflict::Surface,
                        "latest" => OnConflict::Latest,
                        "ours" => OnConflict::Ours,
                        "theirs" => OnConflict::Theirs,
                        other => panic!("unknown policy `{other}`"),
                    };
                }
                ("display", "columns") => cfg.display.columns = texts(v),
                ("display", "max_width") => cfg.display.max_width = number(v) as usize,
                ("display", "sort") => cfg.display.sort = text(v),
                ("display", "list_layout") => cfg.display.list_layout = layout(v),
                ("display", "show_layout") => cfg.display.show_layout = layout(v),
                ("display", "column_max_width") => {
                    cfg.display.column_max_width = StrMap::new();
                    for (column, width) in v.as_table().unwrap() {
                        cfg.display.column_max_width.insert(column.clone(), number(width) as usize);
                    }
                }
                ("timestamps", "create_time") => cfg.timestamps.create_time = text(v),
                ("timestamps", "update_time") => cfg.timestamps.update_time = text(v),
                ("timestamps", "close_time") => cfg.timestamps.close_time = text(v),
                ("task_types", name) => {
                    let mut def = TaskTypeDef { closed: false, fields: StrMap::new() };
                    if let Some(closed) = v.get("closed") {
                        def.closed = closed.as_bool().unwrap();
                    }
                    if let Some(fields) = v.get("fields") {
                        for (f, schema) in fields.as_table().unwrap() {
                            def.fields.insert(f.clone(), field(schema));
                        }
                    }
                    cfg.task_types.types.insert(name.to_string(), def);
                }
                (s, k) => panic!("unknown key `{s}.{k}`"),
            }
        }
    }
    cfg
}

/// The parts of a configuration without task types, for comparison.
fn parts(c: &Config) -> Vec<String> {
    let mut out = vec![
        format!("{} {}", c.compaction.keep_events, c.compaction.keep_days),
        format!("{} {}", c.workflow.status_field, c.workflow.done_status),
        format!("{} {}", c.workflow.default_status, c.workflow.type_field),
        format!("{} {:?}", c.workflow.warn_nonconforming, c.workflow.untyped_tasks),
        format!("{:?}", c.merge.on_conflict),
        format!("{:?} {} {}", c.display.columns, c.display.max_width, c.display.sort),
        format!("{:?} {:?}", c.display.list_layout, c.display.show_layout),
        format!("{} {}", c.timestamps.create_time, c.timestamps.update_time),
        c.timestamps.close_time.clone(),
        format!("{}", c.task_types.types.len()),
    ];
    for i in 0..c.display.column_max_width.len() {
        out.push(format!(
            "{} {}",
            c.display.column_max_width.key_at(i),
            c.display.column_max_width.value_at(i)
        ));
    }
    for i in 0..c.relationships.types.len() {
        let def = c.relationships.types.value_at(i);
        out.push(format!("{} {:?} {}", c.relationships.types.key_at(i), def.kind, def.inverse));
    }
    out
}

fn refused(source: &str, needle: &str) {
    let err = load(source).validate().unwrap_err();
    assert!(err.contains(needle), "`{needle}` not in: {err}");
}

#[test]
fn template_parses_to_defaults() {
    assert_eq!(parts(&load(&default_toml())), parts(&Config::default()));
}

#[test]
fn a_rendered_config_reads_back() {
    let mut cfg = Config::default();
    cfg.compaction.keep_events = 777;
    cfg.workflow.done_status = "finished".to_string();
    cfg.workflow.untyped_tasks = UntypedTasks::Deny;
    cfg.merge.on_conflict = OnConflict::Theirs;
    cfg.display.columns = vec!["id".to_string(), "a b".to_string()];
    cfg.display.show_layout = Layout::Table;
    assert_eq!(parts(&load(&render_toml(&cfg))), parts(&cfg));
}

#[test]
fn field_kind_grammar_parses_and_rejects() {
    assert!(matches!(FieldKind::parse("uint").unwrap(), FieldKind::Uint));
    assert!(matches!(FieldKind::parse("any").unwrap(), FieldKind::Any));
    assert_eq!(
        format!("{:?}", FieldKind::parse("array<string>").unwrap()),
        format!("{:?}", FieldKind::Array(Box::new(FieldKind::String)))
    );
    assert_eq!(
        format!("{:?}", FieldKind::parse("set<enum>").unwrap()),
        format!("{:?}", FieldKind::SetOf(Box::new(FieldKind::Enum)))
    );
    // `base` is what values/checks attach to: the element for containers.
    assert!(matches!(FieldKind::parse("set<int>").unwrap().base(), FieldKind::Int));
    assert!(matches!(FieldKind::parse("float").unwrap().base(), FieldKind::Float));
    for bad in ["", "integer", "array<any>", "array<array<int>>", "set<>"] {
        assert!(FieldKind::parse(bad).is_err(), "must reject `{bad}`");
    }
}

#[test]
fn field_schemas_answer_in_both_forms() {
    let cfg = load(
        r#"
[task_types.bug]
closed = true
[task_types.bug.fields]
points = "uint"
tags = "array<string>"
[task_types.bug.fields.severity]
type = "enum"
values = ["low", "high"]
required = true
"#,
    );
    let bug = cfg.task_types.types.get("bug").unwrap();
    assert!(bug.closed);
    let of = |name: &str| bug.fields.get(name).unwrap();
    assert_eq!(of("points").kind_str(), "uint");
    assert!(!of("points").required(), "shorthand is optional");
    assert!(of("points").values().is_empty());
    assert!(of("points").spec().is_none());
    assert!(of("points").transitions().is_none());
    assert_eq!(of("severity").kind_str(), "enum");
    assert_eq!(of("severity").values(), ["low", "high"]);
    assert!(of("severity").required());
    assert!(of("severity").default_value().is_none());
    assert!(cfg.validate().is_ok(), "a sound schema validates");
}

#[test]
fn task_type_validation_catches_bad_declarations() {
    let check = |types_toml: &str, needle: &str| refused(types_toml, needle);
    check("[task_types.t.fields.sev]\ntype = \"enum\"\n", "values");
    check("[task_types.t.fields]\npoints = \"integer\"\n", "unknown field kind");
    check(
        "[task_types.t.fields.p]\ntype = \"uint\"\nvalues = [\"x\"]\n",
        "only applies to enum",
    );
    check("[task_types.t.fields]\ndeps = \"string\"\n", "reserved");
    check("[task_types.t.fields]\nblocks = \"string\"\n", "relationship");
    check("[task_types.t.fields]\ntype = \"string\"\n", "discriminator");
    check("[task_types.t.fields]\ncreate_time = \"datetime\"\n", "timestamp");
    // With a renamed status display name, the canonical spelling is the
    // wrong way to declare the status field.
    check(
        "[workflow]\nstatus_field = \"state\"\n[task_types.t.fields]\nstatus = \"string\"\n",
        "display name `state`",
    );
}

#[test]
fn field_constraints_validate_and_check_values() {
    let check = |types_toml: &str, needle: &str| refused(types_toml, needle);
    // Constraint/kind applicability and internal consistency.
    check("[task_types.t.fields.f]\ntype = \"bool\"\nmin = 1\n", "min/max only apply");
    check("[task_types.t.fields.f]\ntype = \"uint\"\nmin = 5\nmax = 2\n", "greater than max");
    check("[task_types.t.fields.f]\ntype = \"uint\"\nmin = \"x\"\n", "must itself satisfy");
    check(
        "[task_types.t.fields.f]\ntype = \"uint\"\npattern = \"^a\"\n",
        "only applies to plain string",
    );
    check(
        "[task_types.t.fields.f]\ntype = \"string\"\npattern = \"[\"\n",
        "invalid `pattern`",
    );
    check(
        "[task_types.t.fields.f]\ntype = \"uint\"\nmin_len = 1\n",
        "min_len/max_len only apply",
    );
    check(
        "[task_types.t.fields.f]\ntype = \"string\"\nmin_items = 1\n",
        "min_items/max_items only apply",
    );
    // Defaults must satisfy the kind AND their own constraints.
    check(
        "[task_types.t.fields.f]\ntype = \"uint\"\ndefault = \"x\"\n",
        "doesn't satisfy the declared kind",
    );
    check(
        "[task_types.t.fields.f]\ntype = \"uint\"\nmin = 5\ndefault = 1\n",
        "below min",
    );

    // A sound constrained spec validates, and value checks fire precisely.
    let cfg = load(
        r#"
[task_types.t.fields.title]
type = "string"
pattern = "^[A-Z]"
min_len = 3
max_len = 6
[task_types.t.fields.points]
type = "uint"
min = 1
max = 10
default = 1
[task_types.t.fields.tags]
type = "set<string>"
max_items = 2
"#,
    );
    assert!(cfg.validate().is_ok());
    let fields = &cfg.task_types.types.get("t").unwrap().fields;
    let violations =
        |field: &str, v: &str| fields.get(field).unwrap().constraint_violations(&parse_json(v).unwrap());
    assert!(violations("points", "5").is_empty());
    assert!(violations("points", "0")[0].contains("below min 1"));
    assert!(violations("points", "11")[0].contains("exceeds max 10"));
    let bad_title = violations("title", "\"ab\"");
    assert!(
        bad_title.iter().any(|v| v.contains("pattern"))
            && bad_title.iter().any(|v| v.contains("min_len")),
        "both constraints reported: {bad_title:?}"
    );
    assert!(violations("title", "\"Abcdefg\"")[0].contains("max_len"));
    assert!(violations("tags", "[\"a\", \"b\", \"c\"]")[0].contains("max_items"));
    assert!(violations("tags", "[\"a\"]").is_empty());
}

#[test]
fn kinds_accept_their_values() {
    let fits = |kind: &str, value: &str, values: &[&str]| {
        let values: Vec<String> = values.iter().map(|s| s.to_string()).collect();
        FieldKind::parse(kind).unwrap().matches_value(&parse_json(value).unwrap(), &values)
    };
    assert!(fits("string", "\"a\"", &[]) && !fits("string", "1", &[]));
    assert!(fits("bool", "true", &[]) && !fits("bool", "\"true\"", &[]));
    assert!(fits("int", "-3", &[]) && !fits("int", "1.5", &[]));
    assert!(fits("uint", "3", &[]) && !fits("uint", "-3", &[]));
    assert!(fits("float", "1.5", &[]) && fits("float", "2", &[]) && !fits("float", "\"2\"", &[]));
    assert!(fits("enum", "\"a\"", &["a", "b"]) && !fits("enum", "\"c\"", &["a", "b"]));
    assert!(fits("any", "{}", &[]) && fits("any", "null", &[]));
    assert!(fits("array<int>", "[1, 1]", &[]) && !fits("array<int>", "[1, \"x\"]", &[]));
    assert!(fits("set<int>", "[1, 2]", &[]) && !fits("set<int>", "[1, 1]", &[]));
    assert!(fits("datetime", "\"2026-06-05T10:00:00Z\"", &[]));
    assert!(!fits("datetime", "\"yesterday\"", &[]));
}

#[test]
fn workflow_display_names_validate() {
    let check = |toml_src: &str, needle: &str| refused(toml_src, needle);
    check("[workflow]\nstatus_field = \"x\"\ntype_field = \"x\"\n", "used by both");
    check(&format!("[workflow]\ntype_field = \"{STATUS_KEY}\"\n"), "status storage key");
    check(&format!("[workflow]\nstatus_field = \"{TASK_TYPE_KEY}\"\n"), "task-type storage key");
    check("[workflow]\nstatus_field = \"\"\n", "must not be empty");
    check(&format!("[workflow]\ntype_field = \"{DEPS_KEY}\"\n"), "reserved");
    check("[workflow]\ntype_field = \"blocks\"\n", "relationship");
}

#[test]
fn name_namespace_collisions_are_rejected() {
    let check = |toml_src: &str, needle: &str| refused(toml_src, needle);
    check(&format!("[relationships.{DEPS_KEY}]\nkind = \"info\"\n"), "reserved");
    check(
        &format!("[relationships.depends_on]\nkind = \"blocker\"\ninverse = \"{DEPS_KEY}\"\n"),
        "reserved",
    );
    check(&format!("[timestamps]\ncreate_time = \"{STATUS_KEY}\"\n"), "status storage key");
    check(
        "[timestamps]\ncreate_time = \"when\"\nupdate_time = \"when\"\n",
        "used by both",
    );
    check("[relationships.task_type]\nkind = \"info\"\n", "task-type storage key");
    check(
        "[relationships.depends_on]\nkind = \"blocker\"\n\
         [relationships.a]\nkind = \"info\"\ninverse = \"rev\"\n\
         [relationships.b]\nkind = \"info\"\ninverse = \"rev\"\n",
        "used by both",
    );
    // A symmetric self-inverse stays sanctioned.
    let symmetric = load(
        "[relationships.depends_on]\nkind = \"blocker\"\n\
         [relationships.mirror]\nkind = \"info\"\ninverse = \"mirror\"\n",
    );
    assert!(symmetric.validate().is_ok());
    // The inverse-vs-type ambiguity fires on plain validate.
    check(
        "[relationships.depends_on]\nkind = \"blocker\"\ninverse = \"has_subtask\"\n\
         [relationships.has_subtask]\nkind = \"hierarchy\"\n",
        "ambiguous",
    );
}

#[test]
fn relationship_defaults_set_kind_and_inverse() {
    let r = RelationshipConfig::default();
    let of = |name: &str| r.types.get(name).unwrap();
    assert_eq!(of("depends_on").kind, RelKind::Blocker, "depends_on blocks");
    assert_eq!(of("depends_on").inverse, "blocks", "depends_on's reverse is blocks");
    assert_eq!(of("relates_to").kind, RelKind::Info, "relates_to informational");
    assert_eq!(
        of("relates_to").inverse, "relates_to",
        "relates_to is symmetric (self-inverse)"
    );
    // A `[relationships.x]` sub-table with only `kind` defaults inverse="".
    let parsed = load("[relationships.needs]\nkind = \"blocker\"\n");
    assert_eq!(parsed.relationships.types.get("needs").unwrap().kind, RelKind::Blocker);
    assert_eq!(parsed.relationships.types.get("needs").unwrap().inverse, "");
    // The older key `type` stands for `kind`.
    let legacy = load("[relationships.needs]\ntype = \"hierarchy\"\n");
    assert_eq!(legacy.relationships.types.get("needs").unwrap().kind, RelKind::Hierarchy);

    assert_eq!(r.default_blocker().map(String::as_str), Some("depends_on"));
    assert!(r.blocker_types().contains("depends_on"));
    assert!(r.hierarchy_types().contains("has_subtask"));
    assert!(!r.hierarchy_types().contains("depends_on"));
}

#[test]
fn partial_config_keeps_other_defaults() {
    let parsed = load("[workflow]\ndone_status = \"closed\"\n");
    assert_eq!(parsed.workflow.done_status, "closed");
    assert_eq!(parsed.workflow.status_field, STATUS_KEY); // untouched default
    let whole = Config::default();
    // Whole sections defaulted.
    assert_eq!(parsed.compaction.keep_events, whole.compaction.keep_events);
    assert_eq!(parsed.compaction.keep_days, whole.compaction.keep_days);
    assert_eq!(parsed.merge.on_conflict, whole.merge.on_conflict);
}

#[test]
fn names_of_the_enumerations() {
    assert_eq!(RelKind::Blocker.as_str(), "blocker");
    assert_eq!(RelKind::Hierarchy.as_str(), "hierarchy");
    assert_eq!(RelKind::Info.as_str(), "info");
    assert_eq!(Layout::Table.as_str(), "table");
    assert_eq!(Layout::List.as_str(), "list");
    assert_eq!(OnConflict::Surface.as_str(), "surface");
    assert_eq!(OnConflict::Latest.as_str(), "latest");
    assert_eq!(OnConflict::Ours.as_str(), "ours");
    assert_eq!(OnConflict::Theirs.as_str(), "theirs");
    assert_eq!(UntypedTasks::Allow.as_str(), "allow");
    assert_eq!(UntypedTasks::Warn.as_str(), "warn");
    assert_eq!(UntypedTasks::Deny.as_str(), "deny");
}

#[test]
fn validate_rejects_keep_events_below_minimum() {
    let mut cfg = Config::default();
    assert!(cfg.validate().is_ok(), "the default must be valid");

    cfg.compaction.keep_events = MIN_KEEP_EVENTS - 1;
    assert!(cfg.validate().is_err(), "below the floor must be rejected");

    cfg.compaction.keep_events = MIN_KEEP_EVENTS;
    assert!(cfg.validate().is_ok(), "exactly the floor is allowed");

    cfg.compaction = CompactionConfig { keep_events: 0, keep_days: 0 };
    let err = cfg.validate().unwrap_err();
    assert!(err.starts_with("config validation failed (1 problem(s)):\n  - "), "{err}");
}

#[test]
fn transition_reachability_follows_paths_not_direct_edges() {
    let workflow = |transitions: &str| {
        load(&format!(
            r#"
[workflow]
done_status = "done"
[task_types.t.fields.status]
type = "enum"
values = ["todo", "left", "right", "done"]
transitions = {transitions}
"#
        ))
        .validate()
    };

    // A diamond: neither branch touches `done` directly, both reach it via
    // a path. Reachability is transitive, so this is legal.
    assert!(
        workflow(r#"{ todo = ["left", "right"], left = ["done"], right = ["left"], done = [] }"#)
            .is_ok(),
        "a multi-hop path to done_status counts"
    );

    // Sever the only exit: `right` and `left` now loop between themselves,
    // so three of the four states can never finish.
    let err =
        workflow(r#"{ todo = ["left", "right"], left = ["right"], right = ["left"], done = [] }"#)
            .unwrap_err();
    assert!(
        err.contains("state(s) `todo`, `left`, `right` cannot reach `done`"),
        "{err}"
    );
}

#[test]
fn validate_against_passes_for_defaults_and_flags_inverse_collision() {
    let cfg = Config::default();
    assert!(
        cfg.validate_against(&StrMap::new()).is_ok(),
        "default config + empty graph is valid"
    );

    // Declaring a `blocks` type collides with depends_on's inverse name.
    let mut cfg = Config::default();
    cfg.relationships.types.insert(
        "blocks".to_string(),
        RelationshipDef { kind: RelKind::Info, inverse: String::new() },
    );
    let err = cfg.validate_against(&StrMap::new()).unwrap_err();
    assert!(err.contains("ambiguous"), "inverse collision flagged: {err}");
}

fn linked(id: &str, edges: &[(&str, &[&str])]) -> TaskState {
    let mut t = TaskState::blank(id);
    for (rel, targets) in edges {
        t.relationships.insert(rel.to_string(), targets.iter().map(|s| s.to_string()).collect());
    }
    t
}

fn into_state(tasks: Vec<TaskState>) -> StrMap<TaskState> {
    let mut m = StrMap::new();
    for t in tasks {
        m.insert(t.id.clone(), t);
    }
    m
}

#[test]
fn validate_against_flags_double_blocker_and_multiple_parents() {
    // `a` blocks-by-two: depends_on b (field) and has_subtask b (hierarchy).
    let a = linked("a", &[("depends_on", &["b"]), ("has_subtask", &["b"])]);
    let err = Config::default()
        .validate_against(&into_state(vec![a, linked("b", &[])]))
        .unwrap_err();
    assert!(
        err.contains("only one") && err.contains("blocking"),
        "double blocker flagged: {err}"
    );

    // `c` is a subtask of both p1 and p2.
    let p1 = linked("p1", &[("has_subtask", &["c"])]);
    let p2 = linked("p2", &[("has_subtask", &["c"])]);
    let err = Config::default()
        .validate_against(&into_state(vec![p1, p2, linked("c", &[])]))
        .unwrap_err();
    assert!(err.contains("one parent"), "multiple parents flagged: {err}");
}

#[test]
fn numbers_keep_their_spelling() {
    assert_eq!(compact_text(&parse_json("1.0").unwrap()), "1.0");
    assert_eq!(compact_text(&parse_json("-0").unwrap()), "-0.0");
    assert_eq!(compact_text(&parse_json("18446744073709551615").unwrap()), "18446744073709551615");
    assert_eq!(compact_text(&parse_json(" {\"b\": 1, \"a\": \"\\u00e9\\n\"}").unwrap()), "{\"a\":\"é\\n\",\"b\":1}");
    assert!(parse_json("{").is_none());
}
