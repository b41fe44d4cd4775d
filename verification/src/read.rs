//! Reading a store into tasks as they are displayed.

use crate::config::{Config, WorkflowConfig};
use crate::engine::{self, Engine};
use crate::graph;
use crate::json::{Json, JsonV, JsonNumber, NumberV};
use crate::model::{
    EventV, FieldsV, StateV, TaskState, TaskV, Timestamp, BLOCKED_BY_KEY, STATUS_KEY, SUBTASKS_KEY,
    TASK_TYPE_KEY, UNBLOCKS_KEY,
};
use crate::pattern;
use crate::reach;
use crate::store::Store;
use crate::strmap::{self, Data, StrMap, StrSet};
use crate::text;
use vstd::prelude::*;

verus! {

/// What the task-type schemas say of the stored tasks: a line for each task
/// that does not conform, and the fields that read as their declared default.
pub struct SchemaReading {
    pub report: Vec<String>,
    pub defaults: StrMap<StrMap<Json>>,
}

/// A condition that a read came across and that does not stop it.
pub enum Warning {
    /// So many events in the log belong to no task.
    Orphans(usize),
    /// Tasks do not conform to their schema, a line each.
    NonConformance(Vec<String>),
}

/// The model of a [`Warning`].
pub enum WarningV {
    Orphans(nat),
    NonConformance(Seq<Seq<char>>),
}

impl DeepView for Warning {
    type V = WarningV;

    open spec fn deep_view(&self) -> WarningV {
        match self {
            Warning::Orphans(n) => WarningV::Orphans(*n as nat),
            Warning::NonConformance(lines) => WarningV::NonConformance(lines.deep_view()),
        }
    }
}

impl Data for Warning {
    fn copy(&self) -> (r: Self) {
        match self {
            Warning::Orphans(n) => Warning::Orphans(*n),
            Warning::NonConformance(lines) => Warning::NonConformance(lines.copy()),
        }
    }
}

/// A read of the store: the tasks as they are displayed, the warnings, and the
/// number of the last event (0 without one).
pub struct Session {
    pub state: StrMap<TaskState>,
    pub warnings: Vec<Warning>,
    pub seq: u64,
}

/// The warnings of a read.
pub open spec fn warnings_of(orphans: nat, warn: bool, report: Seq<Seq<char>>) -> Seq<WarningV> {
    (if orphans > 0 {
        seq![WarningV::Orphans(orphans)]
    } else {
        Seq::empty()
    }) + (if warn && report.len() > 0 {
        seq![WarningV::NonConformance(report)]
    } else {
        Seq::empty()
    })
}

/// The fields with the declared defaults in place.
pub open spec fn with_defaults(fields: FieldsV, defaults: FieldsV) -> FieldsV {
    fields.union_prefer_right(defaults)
}

/// The fields with a time under `name`, as RFC 3339 text; an empty name or a
/// missing time adds nothing.
pub open spec fn with_time(fields: FieldsV, name: Seq<char>, at: Option<Timestamp>) -> FieldsV {
    match at {
        Some(t) => match pattern::rfc3339(t.secs, t.nanos) {
            Some(s) => if name.len() == 0 {
                fields
            } else {
                fields.insert(name, JsonV::Str(s))
            },
            None => fields,
        },
        None => fields,
    }
}

/// The fields with `from` called `to`.
pub open spec fn renamed(fields: FieldsV, from: Seq<char>, to: Seq<char>) -> FieldsV {
    if fields.contains_key(from) && from != to {
        fields.remove(from).insert(to, fields[from])
    } else {
        fields
    }
}

/// The fields with status and type under their display names.
pub open spec fn displayed(fields: FieldsV, status: Seq<char>, kind: Seq<char>) -> FieldsV {
    renamed(renamed(fields, STATUS_KEY@, status), TASK_TYPE_KEY@, kind)
}

/// A task as it is displayed.
pub open spec fn shaped(t: TaskV, defaults: FieldsV, config: Config) -> TaskV {
    let ts = config.timestamps;
    let filled = with_defaults(t.custom_fields, defaults);
    let timed = with_time(
        with_time(
            with_time(filled, ts.create_time@, t.create_time),
            ts.update_time@,
            t.update_time,
        ),
        ts.close_time@,
        t.close_time,
    );
    TaskV {
        custom_fields: displayed(
            timed,
            config.workflow.status_field@,
            config.workflow.type_field@,
        ),
        ..t
    }
}

/// The defaults for a task.
pub open spec fn defaults_for(
    defaults: Map<Seq<char>, FieldsV>,
    id: Seq<char>,
) -> FieldsV {
    if defaults.contains_key(id) {
        defaults[id]
    } else {
        Map::empty()
    }
}

/// The tasks as they are displayed.
pub open spec fn shaped_state(
    s: StateV,
    defaults: Map<Seq<char>, FieldsV>,
    config: Config,
) -> StateV {
    Map::new(
        |id: Seq<char>| s.contains_key(id),
        |id: Seq<char>| shaped(s[id], defaults_for(defaults, id), config),
    )
}

/// The number of the last event, or 0.
pub open spec fn last_number(events: Seq<EventV>) -> u64 {
    if events.len() == 0 {
        0
    } else {
        events.last().seq
    }
}

/// Puts a time under `name` as RFC 3339 text.
pub fn inject_time(fields: &mut StrMap<Json>, name: &str, value: Option<Timestamp>)
    ensures
        final(fields)@ == with_time(old(fields)@, name@, value),
{
    if text::is_blank(name) {
        return;
    }
    if let Some(t) = value {
        if let Some(s) = pattern::time_text(t.secs, t.nanos) {
            fields.insert(String::from_str(name), Json::Str(s));
        }
    }
}

pub(crate) fn rename_key(fields: &mut StrMap<Json>, from: &str, to: &str)
    ensures
        final(fields)@ == renamed(old(fields)@, from@, to@),
{
    if !text::same_text(from, to) {
        let ghost before = fields@;
        match fields.take(from) {
            Some(v) => {
                fields.insert(String::from_str(to), v);
            },
            None => {
                assert(before.remove(from@) =~= before);
            },
        }
    }
}

/// Gives the status and type fields of one task their display names.
pub fn rename_fields(fields: &mut StrMap<Json>, workflow: &WorkflowConfig)
    ensures
        final(fields)@ == displayed(
            old(fields)@,
            workflow.status_field@,
            workflow.type_field@,
        ),
{
    rename_key(fields, STATUS_KEY, workflow.status_field.as_str());
    rename_key(fields, TASK_TYPE_KEY, workflow.type_field.as_str());
}

fn fill_defaults(fields: &mut StrMap<Json>, defaults: &StrMap<Json>)
    ensures
        final(fields)@ == with_defaults(old(fields)@, defaults@),
{
    let n = defaults.len();
    let ghost keys = defaults.keys_view();
    let ghost before = fields@;
    let mut i: usize = 0;
    proof {
        strmap::lemma_prefix(defaults@, keys, 0);
        assert(before =~= with_defaults(before, strmap::prefix(defaults@, keys, 0)));
    }
    while i < n
        invariant
            i <= n,
            n == keys.len(),
            keys == defaults.keys_view(),
            strmap::ascending(keys),
            keys.to_set() == defaults@.dom(),
            fields@ == with_defaults(before, strmap::prefix(defaults@, keys, i as nat)),
        decreases n - i,
    {
        let key = defaults.key_at(i);
        fields.insert(key.clone(), defaults.value_at(i).copy());
        proof {
            strmap::lemma_prefix(defaults@, keys, i as nat);
            assert(fields@ =~= with_defaults(
                before,
                strmap::prefix(defaults@, keys, (i + 1) as nat),
            ));
        }
        i += 1;
    }
    proof {
        strmap::lemma_prefix(defaults@, keys, n as nat);
    }
}

fn shape_task(task: &TaskState, defaults: Option<&StrMap<Json>>, config: &Config) -> (r: TaskState)
    ensures
        r@ == shaped(
            task@,
            match defaults {
                Some(d) => d@,
                None => Map::empty(),
            },
            *config,
        ),
{
    let mut fields = task.custom_fields.copy();
    match defaults {
        Some(d) => {
            fill_defaults(&mut fields, d);
        },
        None => {
            assert(fields@ =~= with_defaults(task@.custom_fields, Map::empty()));
        },
    }
    let ts = &config.timestamps;
    inject_time(&mut fields, ts.create_time.as_str(), task.create_time);
    inject_time(&mut fields, ts.update_time.as_str(), task.update_time);
    inject_time(&mut fields, ts.close_time.as_str(), task.close_time);
    rename_fields(&mut fields, &config.workflow);
    TaskState {
        id: task.id.clone(),
        relationships: task.relationships.copy(),
        custom_fields: fields,
        create_time: task.create_time,
        update_time: task.update_time,
        close_time: task.close_time,
    }
}

fn shape_state(
    state: &StrMap<TaskState>,
    defaults: &StrMap<StrMap<Json>>,
    config: &Config,
) -> (r: StrMap<TaskState>)
    ensures
        r@ == shaped_state(state@, defaults@, *config),
{
    let n = state.len();
    let ghost keys = state.keys_view();
    let mut out: StrMap<TaskState> = StrMap::new();
    let mut i: usize = 0;
    assert(keys.take(0) =~= Seq::<Seq<char>>::empty());
    while i < n
        invariant
            i <= n,
            n == keys.len(),
            keys == state.keys_view(),
            forall|k: Seq<char>| #[trigger] out@.contains_key(k) <==> keys.take(i as int).contains(k),
            forall|k: Seq<char>| #[trigger]
                out@.contains_key(k) ==> out@[k] == shaped(
                    state@[k],
                    defaults_for(defaults@, k),
                    *config,
                ),
        decreases n - i,
    {
        let ghost had = out@;
        let id = state.key_at(i);
        let task = shape_task(state.value_at(i), defaults.get(id.as_str()), config);
        out.insert(id.clone(), task);
        proof {
            assert forall|k: Seq<char>| #[trigger] out@.contains_key(k) <==> keys.take(
                i as int + 1,
            ).contains(k) by {
                strmap::lemma_take_one_more(keys, i as int, k);
                assert(had.contains_key(k) <==> keys.take(i as int).contains(k));
            }
            assert forall|k: Seq<char>| #[trigger] out@.contains_key(k) implies out@[k] == shaped(
                state@[k],
                defaults_for(defaults@, k),
                *config,
            ) by {
                if k != id@ {
                    assert(had.contains_key(k));
                }
            }
        }
        i += 1;
    }
    proof {
        assert(keys.take(n as int) =~= keys);
        assert forall|k: Seq<char>| #[trigger] out@.contains_key(k) <==> state@.contains_key(k) by {
            assert(keys.to_set().contains(k) == keys.contains(k));
        }
        assert(out@ =~= shaped_state(state@, defaults@, *config));
    }
    out
}

/// Reads a store into tasks as they are displayed.
///
/// Events of no task and tasks that do not conform become warnings, the latter
/// unless they are switched off. Declared defaults stand in for what the schemas
/// found missing, the times are put under their configured names, and the
/// stored keys of status and type get their display names.
pub fn read(store: &Store, schema: &SchemaReading) -> (r: Session)
    ensures
        r.state@ == shaped_state(store.state(), schema.defaults@, store.config),
        r.warnings.deep_view() == warnings_of(
            engine::orphans(store.base(), store.log(), store.done()).len(),
            store.config.workflow.warn_nonconforming,
            schema.report.deep_view(),
        ),
        r.seq == last_number(store.log()),
{
    let config = &store.config;
    let n = store.mutations.len();
    let seq = if n == 0 {
        0
    } else {
        assert(store.log().last() == store.mutations@[n - 1]@);
        store.mutations[n - 1].seq
    };
    let (raw, orphans) = Engine::materialize_report(
        &store.baseline,
        &store.mutations,
        config.workflow.done_status.as_str(),
    );
    let mut warnings: Vec<Warning> = Vec::new();
    if orphans.len() > 0 {
        warnings.push(Warning::Orphans(orphans.len()));
    }
    if config.workflow.warn_nonconforming && schema.report.len() > 0 {
        warnings.push(Warning::NonConformance(schema.report.copy()));
    }
    assert(warnings.deep_view() =~= warnings_of(
        orphans@.len(),
        config.workflow.warn_nonconforming,
        schema.report.deep_view(),
    ));
    let state = shape_state(&raw, &schema.defaults, config);
    Session { state, warnings, seq }
}

/// Only the display names of a task's fields.
pub open spec fn display_named(s: StateV, workflow: WorkflowConfig) -> StateV {
    Map::new(
        |id: Seq<char>| s.contains_key(id),
        |id: Seq<char>|
            TaskV {
                custom_fields: displayed(
                    s[id].custom_fields,
                    workflow.status_field@,
                    workflow.type_field@,
                ),
                ..s[id]
            },
    )
}

/// Gives the status and type fields of all tasks their display names, and
/// changes nothing else.
pub fn rename_to_display(state: &StrMap<TaskState>, config: &Config) -> (r: StrMap<TaskState>)
    ensures
        r@ == display_named(state@, config.workflow),
{
    let n = state.len();
    let ghost keys = state.keys_view();
    let ghost want = display_named(state@, config.workflow);
    let mut out: StrMap<TaskState> = StrMap::new();
    let mut i: usize = 0;
    assert(keys.take(0) =~= Seq::<Seq<char>>::empty());
    while i < n
        invariant
            i <= n,
            n == keys.len(),
            keys == state.keys_view(),
            want == display_named(state@, config.workflow),
            forall|k: Seq<char>| #[trigger] out@.contains_key(k) <==> keys.take(i as int).contains(k),
            forall|k: Seq<char>| #[trigger] out@.contains_key(k) ==> out@[k] == want[k],
        decreases n - i,
    {
        let ghost had = out@;
        let id = state.key_at(i);
        let mut task = state.value_at(i).copy();
        let mut fields = task.custom_fields.copy();
        rename_fields(&mut fields, &config.workflow);
        task.custom_fields = fields;
        out.insert(id.clone(), task);
        proof {
            assert forall|k: Seq<char>| #[trigger] out@.contains_key(k) <==> keys.take(
                i as int + 1,
            ).contains(k) by {
                strmap::lemma_take_one_more(keys, i as int, k);
                assert(had.contains_key(k) <==> keys.take(i as int).contains(k));
            }
            assert forall|k: Seq<char>| #[trigger] out@.contains_key(k) implies out@[k] == want[k] by {
                if k != id@ {
                    assert(had.contains_key(k));
                }
            }
        }
        i += 1;
    }
    proof {
        assert(keys.take(n as int) =~= keys);
        assert forall|k: Seq<char>| #[trigger] out@.contains_key(k) <==> state@.contains_key(k) by {
            assert(keys.to_set().contains(k) == keys.contains(k));
        }
        assert(out@ =~= want);
    }
    out
}

/// A count as a value.
pub open spec fn count_value(n: nat) -> JsonV {
    JsonV::Num(NumberV::Pos(n as u64))
}

/// The tasks with the counts of what each unblocks and what blocks it.
pub open spec fn with_counts(
    s: StateV,
    blockers: Set<Seq<char>>,
    field: Seq<char>,
    done: Seq<char>,
) -> StateV {
    let es = graph::dep_edges(s, blockers);
    Map::new(
        |id: Seq<char>| s.contains_key(id),
        |id: Seq<char>|
            TaskV {
                custom_fields: s[id].custom_fields.insert(
                    UNBLOCKS_KEY@,
                    count_value(graph::open_reached(s, reach::flipped(es), id, field, done).len()),
                ).insert(
                    BLOCKED_BY_KEY@,
                    count_value(graph::open_reached(s, es, id, field, done).len()),
                ),
                ..s[id]
            },
    )
}

/// The tasks with the progress of their subtasks, where they have any.
pub open spec fn with_progress(
    s: StateV,
    hierarchy: Set<Seq<char>>,
    field: Seq<char>,
    done: Seq<char>,
) -> StateV {
    Map::new(
        |id: Seq<char>| s.contains_key(id),
        |id: Seq<char>|
            {
                let kids = graph::children(s[id], hierarchy);
                if kids.len() == 0 {
                    s[id]
                } else {
                    TaskV {
                        custom_fields: s[id].custom_fields.insert(
                            SUBTASKS_KEY@,
                            JsonV::Str(
                                text::decimal(graph::done_among(s, kids, field, done)) + "/"@
                                    + text::decimal(kids.len()),
                            ),
                        ),
                        ..s[id]
                    }
                }
            },
    )
}

/// The tasks with the computed columns that are wanted.
pub open spec fn with_computed(
    s: StateV,
    wanted: Seq<Seq<char>>,
    blockers: Set<Seq<char>>,
    hierarchy: Set<Seq<char>>,
    field: Seq<char>,
    done: Seq<char>,
) -> StateV {
    let counted = if wanted.contains(UNBLOCKS_KEY@) || wanted.contains(BLOCKED_BY_KEY@) {
        with_counts(s, blockers, field, done)
    } else {
        s
    };
    if wanted.contains(SUBTASKS_KEY@) {
        with_progress(counted, hierarchy, field, done)
    } else {
        counted
    }
}

fn count_json(n: usize) -> (r: Json)
    ensures
        r@ == count_value(n as nat),
{
    Json::Num(JsonNumber::from_u64(n as u64))
}

fn add_counts(state: &StrMap<TaskState>, blockers: &StrSet, field: &str, done: &str) -> (r: StrMap<
    TaskState,
>)
    ensures
        r@ == with_counts(state@, blockers@, field@, done@),
{
    let counts = graph::reachability_counts(state, blockers, field, done);
    let n = state.len();
    let ghost keys = state.keys_view();
    let ghost want = with_counts(state@, blockers@, field@, done@);
    let ghost es = graph::dep_edges(state@, blockers@);
    let mut out: StrMap<TaskState> = StrMap::new();
    let mut i: usize = 0;
    assert(keys.take(0) =~= Seq::<Seq<char>>::empty());
    while i < n
        invariant
            i <= n,
            n == keys.len(),
            keys == state.keys_view(),
            want == with_counts(state@, blockers@, field@, done@),
            es == graph::dep_edges(state@, blockers@),
            counts@.dom() == state@.dom(),
            forall|id: Seq<char>| #[trigger]
                counts@.contains_key(id) ==> {
                    &&& counts@[id].0 == graph::open_reached(
                        state@,
                        reach::flipped(es),
                        id,
                        field@,
                        done@,
                    ).len()
                    &&& counts@[id].1 == graph::open_reached(state@, es, id, field@, done@).len()
                },
            forall|k: Seq<char>| #[trigger] out@.contains_key(k) <==> keys.take(i as int).contains(k),
            forall|k: Seq<char>| #[trigger] out@.contains_key(k) ==> out@[k] == want[k],
        decreases n - i,
    {
        let ghost had = out@;
        let id = state.key_at(i);
        let mut task = state.value_at(i).copy();
        match counts.get(id.as_str()) {
            Some(pair) => {
                let mut fields = task.custom_fields.copy();
                fields.insert(String::from_str(UNBLOCKS_KEY), count_json(pair.0));
                fields.insert(String::from_str(BLOCKED_BY_KEY), count_json(pair.1));
                task.custom_fields = fields;
            },
            None => {
                assert(counts@.dom().contains(id@));
            },
        }
        out.insert(id.clone(), task);
        proof {
            assert forall|k: Seq<char>| #[trigger] out@.contains_key(k) <==> keys.take(
                i as int + 1,
            ).contains(k) by {
                strmap::lemma_take_one_more(keys, i as int, k);
                assert(had.contains_key(k) <==> keys.take(i as int).contains(k));
            }
            assert forall|k: Seq<char>| #[trigger] out@.contains_key(k) implies out@[k] == want[k] by {
                if k != id@ {
                    assert(had.contains_key(k));
                }
            }
        }
        i += 1;
    }
    proof {
        assert(keys.take(n as int) =~= keys);
        assert forall|k: Seq<char>| #[trigger] out@.contains_key(k) <==> state@.contains_key(k) by {
            assert(keys.to_set().contains(k) == keys.contains(k));
        }
        assert(out@ =~= want);
    }
    out
}

fn add_progress(
    state: &StrMap<TaskState>,
    hierarchy: &StrSet,
    field: &str,
    done: &str,
) -> (r: StrMap<
    TaskState,
>)
    ensures
        r@ == with_progress(state@, hierarchy@, field@, done@),
{
    let n = state.len();
    let ghost keys = state.keys_view();
    let ghost want = with_progress(state@, hierarchy@, field@, done@);
    let mut out: StrMap<TaskState> = StrMap::new();
    let mut i: usize = 0;
    assert(keys.take(0) =~= Seq::<Seq<char>>::empty());
    while i < n
        invariant
            i <= n,
            n == keys.len(),
            keys == state.keys_view(),
            want == with_progress(state@, hierarchy@, field@, done@),
            forall|k: Seq<char>| #[trigger] out@.contains_key(k) <==> keys.take(i as int).contains(k),
            forall|k: Seq<char>| #[trigger] out@.contains_key(k) ==> out@[k] == want[k],
        decreases n - i,
    {
        let ghost had = out@;
        let id = state.key_at(i);
        let mut task = state.value_at(i).copy();
        let (finished, total) = graph::subtask_counts(&task, state, hierarchy, field, done);
        if total > 0 {
            let progress = text::cat3(
                text::decimal_text(finished as u64).as_str(),
                "/",
                text::decimal_text(total as u64).as_str(),
            );
            let mut fields = task.custom_fields.copy();
            fields.insert(String::from_str(SUBTASKS_KEY), Json::Str(progress));
            task.custom_fields = fields;
        }
        out.insert(id.clone(), task);
        proof {
            assert forall|k: Seq<char>| #[trigger] out@.contains_key(k) <==> keys.take(
                i as int + 1,
            ).contains(k) by {
                strmap::lemma_take_one_more(keys, i as int, k);
                assert(had.contains_key(k) <==> keys.take(i as int).contains(k));
            }
            assert forall|k: Seq<char>| #[trigger] out@.contains_key(k) implies out@[k] == want[k] by {
                if k != id@ {
                    assert(had.contains_key(k));
                }
            }
        }
        i += 1;
    }
    proof {
        assert(keys.take(n as int) =~= keys);
        assert forall|k: Seq<char>| #[trigger] out@.contains_key(k) <==> state@.contains_key(k) by {
            assert(keys.to_set().contains(k) == keys.contains(k));
        }
        assert(out@ =~= want);
    }
    out
}

/// Puts the computed columns that are wanted on the tasks, as ordinary fields:
/// how many open tasks each unblocks and is blocked by, and the progress of its
/// subtasks.
pub fn inject_computed_columns(
    config: &Config,
    state: StrMap<TaskState>,
    wanted: &Vec<String>,
) -> (r: StrMap<TaskState>)
    ensures
        r@ == with_computed(
            state@,
            wanted.deep_view(),
            crate::config::gating_types(config.relationships.types@),
            crate::config::subtask_types(config.relationships.types@),
            config.workflow.status_field@,
            config.workflow.done_status@,
        ),
{
    let field = config.workflow.status_field.as_str();
    let done = config.workflow.done_status.as_str();
    let mut out = state;
    if engine::contains_text(wanted, UNBLOCKS_KEY) || engine::contains_text(wanted, BLOCKED_BY_KEY) {
        let blockers = config.relationships.blocker_types();
        out = add_counts(&out, &blockers, field, done);
    }
    if engine::contains_text(wanted, SUBTASKS_KEY) {
        let hierarchy = config.relationships.hierarchy_types();
        out = add_progress(&out, &hierarchy, field, done);
    }
    out
}

/// The names under which fields are shown: the stored status appears under the
/// configured name of the status field and the stored type under that of the
/// type field; every other field stays where it is. Both names must be free: a
/// field that is already called so would be hidden.
pub proof fn fields_are_shown_under_their_names(
    fields: FieldsV,
    status: Seq<char>,
    kind: Seq<char>,
    k: Seq<char>,
)
    requires
        status != kind,
        status != TASK_TYPE_KEY@,
        kind != STATUS_KEY@,
    ensures
        ({
            let shown = displayed(fields, status, kind);
            let state = fields.contains_key("status"@);
            let sort = fields.contains_key("task_type"@);
            &&& state ==> shown.contains_key(status) && shown[status] == fields["status"@]
            &&& sort ==> shown.contains_key(kind) && shown[kind] == fields["task_type"@]
            &&& status != "status"@ ==> !shown.contains_key("status"@)
            &&& kind != "task_type"@ ==> !shown.contains_key("task_type"@)
            &&& k != "status"@ && k != "task_type"@ && !(state && k == status) && !(sort && k == kind)
                ==> {
                &&& shown.contains_key(k) <==> fields.contains_key(k)
                &&& fields.contains_key(k) ==> shown[k] == fields[k]
            }
        }),
{
    reveal_strlit("status");
    reveal_strlit("task_type");
    assert("status"@.len() == 6 && "task_type"@.len() == 9);
}

/// What a read shows of a task: a declared default in place of what the schemas
/// found missing; the times under their configured names, as text, where the
/// task has them; and every other field as it is stored. Its id, edges and times
/// stay what they are.
pub proof fn reads_show_tasks(
    store: Store,
    schema: SchemaReading,
    r: Session,
    id: Seq<char>,
    k: Seq<char>,
)
    requires
        call_ensures(read, (&store, &schema), r),
        store.config.workflow.status_field@ == STATUS_KEY@,
        store.config.workflow.type_field@ == TASK_TYPE_KEY@,
    ensures
        r.state@.contains_key(id) <==> store.state().contains_key(id),
        r.state@.contains_key(id) ==> {
            let t = r.state@[id];
            let held = store.state()[id];
            let names = store.config.timestamps;
            let timed = (k == names.create_time@ && held.create_time is Some) || (k
                == names.update_time@ && held.update_time is Some) || (k == names.close_time@
                && held.close_time is Some);
            let filled = schema.defaults@.contains_key(id) && schema.defaults@[id].contains_key(k);
            &&& t.id == held.id
            &&& t.relationships == held.relationships
            &&& t.create_time == held.create_time
            &&& t.update_time == held.update_time
            &&& t.close_time == held.close_time
            &&& !timed && filled ==> t.custom_fields.contains_key(k) && t.custom_fields[k]
                == schema.defaults@[id][k]
            &&& !timed && !filled ==> {
                &&& t.custom_fields.contains_key(k) <==> held.custom_fields.contains_key(k)
                &&& t.custom_fields.contains_key(k) ==> t.custom_fields[k] == held.custom_fields[k]
            }
            &&& k.len() > 0 && k == names.close_time@ && held.close_time is Some ==> {
                let at = held.close_time->0;
                pattern::rfc3339(at.secs, at.nanos) matches Some(x)
                    ==> t.custom_fields.contains_key(k) && t.custom_fields[k] == JsonV::Str(x)
            }
            &&& k.len() > 0 && k == names.update_time@ && k != names.close_time@
                && held.update_time is Some ==> {
                let at = held.update_time->0;
                pattern::rfc3339(at.secs, at.nanos) matches Some(x)
                    ==> t.custom_fields.contains_key(k) && t.custom_fields[k] == JsonV::Str(x)
            }
            &&& k.len() > 0 && k == names.create_time@ && k != names.close_time@ && k
                != names.update_time@ && held.create_time is Some ==> {
                let at = held.create_time->0;
                pattern::rfc3339(at.secs, at.nanos) matches Some(x)
                    ==> t.custom_fields.contains_key(k) && t.custom_fields[k] == JsonV::Str(x)
            }
        },
        r.seq == if store.log().len() == 0 {
            0
        } else {
            store.log()[store.log().len() - 1].seq
        },
{
}

/// The computed columns stand where they are asked for: how many other open
/// tasks wait for a task and for how many it waits, at once or through others;
/// and how many of its subtasks are done, out of how many, where it has any. All
/// other fields stay.
pub proof fn computed_columns_are_filled(
    s: StateV,
    wanted: Seq<Seq<char>>,
    blockers: Set<Seq<char>>,
    hierarchy: Set<Seq<char>>,
    field: Seq<char>,
    done: Seq<char>,
    id: Seq<char>,
    k: Seq<char>,
)
    requires
        s.contains_key(id),
        field != "unblocks"@,
        field != "blocked_by"@,
    ensures
        ({
            let after = with_computed(s, wanted, blockers, hierarchy, field, done);
            let t = after[id];
            let es = Set::new(|e: (Seq<char>, Seq<char>)| graph::awaits(s, e.0, blockers, e.1));
            let counted = wanted.contains("unblocks"@) || wanted.contains("blocked_by"@);
            let kids = graph::children(s[id], hierarchy);
            let nested = wanted.contains("subtasks"@) && kids.len() > 0;
            &&& after.contains_key(id)
            &&& t.id == s[id].id && t.relationships == s[id].relationships
            &&& counted ==> t.custom_fields.contains_key("unblocks"@) && t.custom_fields["unblocks"@]
                == JsonV::Num(
                NumberV::Pos(
                    Set::new(
                        |m: Seq<char>|
                            {
                                &&& m != id
                                &&& s.contains_key(m)
                                &&& !graph::finished(s, m, field, done)
                                &&& reach::reaches(es, m, id)
                            },
                    ).len() as u64,
                ),
            )
            &&& counted ==> t.custom_fields.contains_key("blocked_by"@)
                && t.custom_fields["blocked_by"@] == JsonV::Num(
                NumberV::Pos(
                    Set::new(
                        |m: Seq<char>|
                            {
                                &&& m != id
                                &&& s.contains_key(m)
                                &&& !graph::finished(s, m, field, done)
                                &&& reach::reaches(es, id, m)
                            },
                    ).len() as u64,
                ),
            )
            &&& !(counted && (k == "unblocks"@ || k == "blocked_by"@)) && !(nested && k
                == "subtasks"@) ==> {
                &&& t.custom_fields.contains_key(k) <==> s[id].custom_fields.contains_key(k)
                &&& t.custom_fields.contains_key(k) ==> t.custom_fields[k] == s[id].custom_fields[k]
            }
        }),
{
    reveal_strlit("unblocks");
    reveal_strlit("blocked_by");
    reveal_strlit("subtasks");
    assert("unblocks"@.len() == 8 && "blocked_by"@.len() == 10 && "subtasks"@.len() == 8);
    assert("unblocks"@[0] == 'u' && "subtasks"@[0] == 's');
    let es = graph::dep_edges(s, blockers);
    assert(es =~= Set::new(|e: (Seq<char>, Seq<char>)| graph::awaits(s, e.0, blockers, e.1)));
    let back = graph::open_reached(s, reach::flipped(es), id, field, done);
    let forth = graph::open_reached(s, es, id, field, done);
    assert forall|m: Seq<char>| back.contains(m) <==> {
        &&& m != id
        &&& s.contains_key(m)
        &&& !graph::finished(s, m, field, done)
        &&& reach::reaches(es, m, id)
    } by {
        reach::lemma_flipped_reaches(es, m, id);
    }
    assert(back =~= Set::new(
        |m: Seq<char>|
            {
                &&& m != id
                &&& s.contains_key(m)
                &&& !graph::finished(s, m, field, done)
                &&& reach::reaches(es, m, id)
            },
    ));
    assert(forth =~= Set::new(
        |m: Seq<char>|
            {
                &&& m != id
                &&& s.contains_key(m)
                &&& !graph::finished(s, m, field, done)
                &&& reach::reaches(es, id, m)
            },
    ));
}

/// A read warns of orphaned events where there are any, with their number, and of
/// tasks that do not conform where there are any and this is not switched off;
/// of nothing else.
pub proof fn reads_warn_of_what_they_find(orphans: nat, warn: bool, report: Seq<Seq<char>>)
    ensures
        ({
            let w = warnings_of(orphans, warn, report);
            &&& w.contains(WarningV::Orphans(orphans)) <==> orphans > 0
            &&& w.contains(WarningV::NonConformance(report)) <==> warn && report.len() > 0
            &&& w.len() <= 2
            &&& orphans == 0 && (!warn || report.len() == 0) ==> w.len() == 0
        }),
{
    let w = warnings_of(orphans, warn, report);
    if orphans > 0 {
        assert(w[0] == WarningV::Orphans(orphans));
    }
    if warn && report.len() > 0 {
        assert(w[w.len() - 1] == WarningV::NonConformance(report));
    }
}

} // verus!
