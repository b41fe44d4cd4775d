//! Forms: what they show and what a saved one writes.

use taska::config::{Config, TaskTypeDef, UntypedTasks};
use taska::document::{parse_fields, serialize_fields};
use taska::edit::{
    after_answer, after_save, build_template, file_name, nothing_written, opening, untouched,
    written, EditForm, EditMode, EditStep, Preview, Saved,
};
use taska::json::{compact_text, parse_json, Json};
use taska::model::{MutationEvent, OpType, Timestamp};
use taska::store::Store;
use taska::strmap::{Data, StrMap, StrSet};

fn map(pairs: &[(&str, &str)]) -> StrMap<Json> {
    let mut m = StrMap::new();
    for (k, v) in pairs {
        m.insert(k.to_string(), parse_json(v).unwrap());
    }
    m
}

fn text(m: &StrMap<Json>, k: &str) -> Option<String> {
    m.get(k).map(compact_text)
}

fn shown(m: &StrMap<Json>) -> Vec<(String, String)> {
    (0..m.len()).map(|i| (m.key_at(i).clone(), compact_text(m.value_at(i)))).collect()
}

/// A form with an explicit stored/template pair, bypassing a real store.
fn form(mode: EditMode, stored: &[(&str, &str)], template: &[(&str, &str)]) -> EditForm {
    EditForm {
        template: map(template),
        stored: map(stored),
        snapshot: StrMap::new(),
        mode,
        id: "t".to_string(),
    }
}

#[test]
fn payload_detects_change_add_and_remove() {
    let stored = &[("title", "\"old\""), ("priority", "1"), ("drop", "\"x\"")];
    let form = form(EditMode::Update, stored, stored);
    let set = form.payload(&map(&[
        ("title", "\"new\""), // changed
        ("priority", "1"),    // unchanged -> skipped
        ("added", "9"),       // new
                              // "drop" removed
    ]));

    assert_eq!(text(&set, "title").as_deref(), Some("\"new\""));
    assert_eq!(text(&set, "added").as_deref(), Some("9"));
    assert_eq!(text(&set, "drop").as_deref(), Some("null"), "removed field -> null");
    assert!(!set.contains_key("priority"), "unchanged field is not written");
}

#[test]
fn deleting_a_template_only_line_writes_nothing() {
    let form = form(
        EditMode::Update,
        &[("title", "\"old\"")],
        &[("status", "\"todo\""), ("points", "3"), ("title", "\"old\""), ("owner", "\"\"")],
    );

    let set = form.payload(&map(&[("title", "\"old\"")]));
    assert!(
        set.is_empty(),
        "deleting suggested defaults and placeholders is not a write: {:?}",
        shown(&set)
    );

    let set = form.payload(&map(&[("status", "\"todo\"")]));
    assert_eq!(
        text(&set, "title").as_deref(),
        Some("null"),
        "deleting a stored field unsets it"
    );
}

#[test]
fn blanking_a_value_passes_the_empty_string_through() {
    let form = form(
        EditMode::Update,
        &[("title", "\"old\"")],
        &[("title", "\"old\""), ("owner", "\"\"")],
    );
    let set = form.payload(&map(&[("title", "\"\""), ("owner", "\"\"")]));

    assert_eq!(text(&set, "title").as_deref(), Some("\"\""), "blanked value is a write");
    assert!(!set.contains_key("owner"), "an untouched placeholder is still not a write");
}

#[test]
fn create_keeps_defaults_out_of_the_payload_until_touched() {
    let template = &[
        ("status", "\"todo\""),
        ("title", "\"\""),
        ("type", "\"story\""),
        ("rank", "\"\""),
    ];
    let form = form(EditMode::Create, &[], template);

    assert!(form.payload(&map(template)).is_empty(), "an untouched form creates nothing");

    let mut edited = map(template);
    edited.insert("title".to_string(), parse_json("\"New task\"").unwrap());
    let payload = form.payload(&edited);
    assert_eq!(text(&payload, "title").as_deref(), Some("\"New task\""));
    assert!(
        !payload.contains_key("status") && !payload.contains_key("type"),
        "untouched suggestions stay out: {:?}",
        shown(&payload)
    );
    assert!(!payload.contains_key("rank"));
}

#[test]
fn create_never_suppresses_a_default_by_omission() {
    let form = form(EditMode::Create, &[], &[("status", "\"todo\""), ("title", "\"\"")]);
    let payload = form.payload(&map(&[("title", "\"Created in editor\"")]));

    assert_eq!(text(&payload, "title").as_deref(), Some("\"Created in editor\""));
    assert!(
        !payload.contains_key("status"),
        "an absent line must not become a null: {:?}",
        shown(&payload)
    );
}

fn names(list: &[&str]) -> StrSet {
    let mut s = StrSet::new();
    for n in list {
        s.insert(n.to_string());
    }
    s
}

#[test]
fn template_blanks_never_overwrite_a_stored_field() {
    // `status_field = "priority"` renames the canonical `status` onto a name under
    // which a value is already stored. That value must
    // survive; the blank must not land.
    let mut config = Config::default();
    config.workflow.status_field = "priority".to_string();
    let stored = map(&[("priority", "2")]);
    let editable = names(&["status", "priority"]);
    let template =
        build_template(&config, EditMode::Update, &stored, &StrMap::new(), &editable);
    assert_eq!(
        text(&template, "priority").as_deref(),
        Some("2"),
        "a stored value must not be clobbered by a placeholder: {:?}",
        shown(&template)
    );
}

#[test]
fn create_template_prefills_editable_fields_and_known_defaults() {
    let mut config = Config::default();
    config.workflow.untyped_tasks = UntypedTasks::Deny;
    config
        .task_types
        .types
        .insert("story".to_string(), TaskTypeDef { closed: false, fields: StrMap::new() });
    // What the declared fields `title` and `points = 3` come to.
    let stamps = map(&[("points", "3")]);
    let editable = names(&["points", "status", "task_type", "title"]);
    let template =
        build_template(&config, EditMode::Create, &StrMap::new(), &stamps, &editable);

    assert_eq!(text(&template, "status").as_deref(), Some("\"todo\""));
    assert_eq!(text(&template, "type").as_deref(), Some("\"story\""));
    assert_eq!(text(&template, "title").as_deref(), Some("\"\""));
    assert_eq!(text(&template, "points").as_deref(), Some("3"));
    for reserved in ["id", "deps", "create_time", "update_time", "close_time"] {
        assert!(!template.contains_key(reserved), "{reserved} is not editable");
    }
}

#[test]
fn toml_round_trips_scalars_and_arrays() {
    // Serialize -> parse must be value-stable, so an UNTOUCHED field diffs to
    // nothing.
    let fields = map(&[
        ("title", "\"Ship it\""),
        ("priority", "3"),
        ("ratio", "1.5"),
        ("done", "false"),
        ("tags", "[\"a\", \"b\"]"),
    ]);
    let text = serialize_fields(&fields, false).unwrap();
    assert_eq!(shown(&parse_fields(&text, false).ok().unwrap()), shown(&fields));
    assert!(text.contains("title = \"Ship it\""), "{text}");
}

#[test]
fn json_round_trips_and_is_stable() {
    let fields = map(&[("title", "\"x\""), ("n", "-2"), ("tags", "[\"z\"]")]);
    let text = serialize_fields(&fields, true).unwrap();
    assert_eq!(shown(&parse_fields(&text, true).ok().unwrap()), shown(&fields));
    assert_eq!(serialize_fields(&parse_fields(&text, true).ok().unwrap(), true).unwrap(), text);
}

#[test]
fn a_comments_only_save_parses_to_no_fields() {
    assert!(parse_fields("# nothing here\n", false).ok().unwrap().is_empty());
    assert!(parse_fields("{}", true).ok().unwrap().is_empty());
}

#[test]
fn syntax_errors_are_surfaced() {
    assert!(parse_fields("this is = = not toml", false).is_err());
    assert!(parse_fields("{not json", true).is_err());
}

#[test]
fn a_form_opens_on_a_task_or_for_a_new_one() {
    let at = Timestamp { secs: 0, nanos: 0 };
    let mut e = MutationEvent::new(OpType::Create, "a", map(&[("title", "\"x\"")]), at);
    e.seq = 1;
    let store = Store { config: Config::default(), baseline: Vec::new(), mutations: vec![e] };
    let open = |id: &str, create: bool| {
        EditForm::open(&store, id, create, &StrMap::new(), &names(&["title", "owner"]))
    };
    let form = open("a", false).ok().unwrap();
    assert!(matches!(form.mode(), EditMode::Update));
    assert_eq!(text(&form.template, "title").as_deref(), Some("\"x\""));
    assert_eq!(text(&form.template, "owner").as_deref(), Some("\"\""));
    // Saved untouched, it writes nothing; emptied, it is a discard.
    assert!(form.payload(&form.template).is_empty());
    let seen = form.preview(&StrMap::new(), &store.config, &StrMap::new(), at);
    assert!(matches!(seen, Ok(Preview::Empty)));
    assert_eq!(open("b", false).err().as_deref(), Some("no task `b`"));
    assert_eq!(open("a", true).err().as_deref(), Some("task `a` already exists"));
    let new = open("b", true).ok().unwrap();
    assert!(matches!(new.mode(), EditMode::Create));
    // Field names are confirmed once there is a task to compare with.
    assert_eq!(new.unconfirmed(vec!["z".to_string()]), ["z"]);
}

#[test]
fn forms_are_announced() {
    assert!(opening(EditMode::Create, "t").contains("t"));
    assert_ne!(opening(EditMode::Create, "t"), opening(EditMode::Update, "t"));
    assert!(untouched(EditMode::Update, "t").contains("t"));
    assert!(nothing_written(EditMode::Create, "t").contains("t"));
    assert_eq!(file_name("a/b c"), file_name("a/b c"));
    assert!(!file_name("a/b c").contains('/'));
}

#[test]
fn a_saved_form_is_written_asked_about_or_dropped() {
    let saved = |s: Saved| after_save(EditMode::Update, "t", &s);
    assert!(matches!(
        saved(Saved::Empty),
        EditStep::End(m) if m == "Empty file - discarded; `t` left unchanged."
    ));
    assert!(matches!(saved(Saved::Ready(Vec::new())), EditStep::Write { new_fields: false }));
    let names = || saved(Saved::Ready(vec!["a".to_string(), "b".to_string()]));
    assert!(matches!(
        names(),
        EditStep::AskNames { note, .. } if note.ends_with("no task uses yet: a, b")
    ));
    let refused = || saved(Saved::Refused("bad".to_string()));
    assert!(matches!(refused(), EditStep::AskAgain { note, .. } if note == "error: bad"));
    let answered = |s: EditStep, yes: bool| after_answer(EditMode::Update, "t", s, yes);
    assert!(matches!(answered(names(), true), EditStep::Write { new_fields: true }));
    assert!(matches!(answered(names(), false), EditStep::Reopen));
    assert!(matches!(answered(refused(), true), EditStep::Reopen));
    assert!(matches!(
        answered(refused(), false),
        EditStep::End(m) if m == "Discarded; `t` left unchanged."
    ));
    assert_eq!(written(EditMode::Create, "t", Some(7)), "[seq:7] Created task `t`");
    assert_eq!(written(EditMode::Update, "t", None), "No changes - `t` left unchanged.");
}

fn at(secs: i64) -> Timestamp {
    Timestamp { secs, nanos: 0 }
}

/// A store with the task `a`, and the status under another name.
fn small_store() -> Store {
    let mut e = MutationEvent::new(OpType::Create, "a", map(&[("title", "\"x\"")]), at(0));
    e.seq = 1;
    let mut config = Config::default();
    config.workflow.status_field = "state".to_string();
    Store { config, baseline: Vec::new(), mutations: vec![e] }
}

#[test]
fn a_saved_form_is_looked_at_and_then_written() {
    let mut store = small_store();
    let editable = names(&["title", "owner"]);
    let form = EditForm::open(&store, "a", false, &StrMap::new(), &editable).ok().unwrap();
    let look = |text: &[(&str, &str)]| {
        form.preview(&map(text), &store.config, &StrMap::new(), at(5))
    };
    // The status goes under its stored name; an unknown name is pointed out.
    let edited = [("title", "\"x\""), ("state", "\"open\""), ("color", "\"red\"")];
    let (set, new_fields) = match look(&edited) {
        Ok(Preview::Ready { set, new_fields }) => (set, new_fields),
        _ => panic!("the form is in order"),
    };
    assert_eq!(new_fields, ["color"]);
    assert_eq!(text(&set, "status").as_deref(), Some("\"open\""));
    assert_eq!(text(&set, "state"), None);
    // One field under both of its names is refused.
    let twice = [("state", "\"open\""), ("status", "\"shut\""), ("title", "\"x\"")];
    assert!(look(&twice).is_err());
    // Nothing changed, nothing to write.
    match look(&[("title", "\"x\"")]) {
        Ok(Preview::Ready { set, new_fields }) => assert!(set.is_empty() && new_fields.is_empty()),
        _ => panic!("an unchanged form is in order"),
    }

    // Unless they are allowed, new names refuse the write.
    let refused = form.apply(&mut store, set.copy(), &StrMap::new(), false, at(6)).err().unwrap();
    assert_eq!(refused.exit_code().as_u8(), 2);
    assert_eq!(store.mutations.len(), 1);
    let done = form.apply(&mut store, set, &StrMap::new(), true, at(6)).ok().unwrap();
    assert_eq!(done.new_fields, ["color"]);
    assert_eq!(done.written.len(), 1);
    assert_eq!(store.mutations.len(), 2);
    assert_eq!(store.mutations[1].seq, 2);
    assert_eq!(store.mutations[1].task_id, "a");

    // What was deleted meanwhile cannot be written to.
    let mut gone = small_store();
    taska::write::delete(&mut gone, "a", at(7)).ok().unwrap();
    let late = map(&[("title", "\"y\"")]);
    assert!(form.apply(&mut gone, late, &StrMap::new(), true, at(8)).is_err());
    assert_eq!(gone.mutations.len(), 2);
}

#[test]
fn a_new_task_is_looked_at_and_then_written() {
    let mut store = small_store();
    let form = EditForm::open(&store, "b", true, &StrMap::new(), &names(&["title"])).ok().unwrap();
    let edited = map(&[("title", "\"new\"")]);
    let set = match form.preview(&edited, &store.config, &StrMap::new(), at(5)) {
        Ok(Preview::Ready { set, new_fields }) if new_fields.is_empty() => set,
        _ => panic!("the form is in order"),
    };
    assert!(form.apply(&mut store, set, &StrMap::new(), false, at(6)).is_ok());
    let last = store.mutations.last().unwrap();
    assert!(last.op == OpType::Create && last.task_id == "b");
    // The same id a second time is refused.
    let again = map(&[("title", "\"new\"")]);
    assert!(form.apply(&mut store, again, &StrMap::new(), false, at(7)).is_err());
}
