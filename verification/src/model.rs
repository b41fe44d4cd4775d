//! Tasks and the events that change them.

use crate::json::{Json, JsonV};
use crate::strmap::{Data, StrMap};
use crate::text;
use vstd::prelude::*;

verus! {

/// The field that holds a task's status.
pub const STATUS_KEY: &'static str = "status";

/// The field that holds a task's type.
pub const TASK_TYPE_KEY: &'static str = "task_type";

/// The column of the task id.
pub const ID_KEY: &'static str = "id";

/// The column of the task's edges.
pub const DEPS_KEY: &'static str = "deps";

/// The computed column that counts what a task unblocks.
pub const UNBLOCKS_KEY: &'static str = "unblocks";

/// The computed column that counts what blocks a task.
pub const BLOCKED_BY_KEY: &'static str = "blocked_by";

/// The computed column of subtask progress.
pub const SUBTASKS_KEY: &'static str = "subtasks";

/// The payload key of an edge's target.
pub const TARGET_KEY: &'static str = "target";

/// The payload key of an edge's relationship type.
pub const REL_KEY: &'static str = "rel";

/// The relationship type of an edge that names none.
pub const DEPENDS_ON: &'static str = "depends_on";

/// The event key of the sequence number.
pub const SEQ_KEY: &'static str = "seq";

/// The event key of the task id.
pub const TASK_ID_KEY: &'static str = "task_id";

/// The names no task field may have: the event's own keys and the built-in
/// columns.
pub open spec fn reserved_keys() -> Seq<Seq<char>> {
    seq![
        "seq"@,
        "timestamp"@,
        "op"@,
        "task_id"@,
        "_meta"@,
        "id"@,
        "deps"@,
        "unblocks"@,
        "blocked_by"@,
        "subtasks"@,
    ]
}

/// Whether `name` is one of the reserved names.
pub fn is_reserved(name: &str) -> (r: bool)
    ensures
        r == reserved_keys().contains(name@),
{
    let r = text::same_text(name, "seq") || text::same_text(name, "timestamp") || text::same_text(
        name,
        "op",
    ) || text::same_text(name, "task_id") || text::same_text(name, "_meta") || text::same_text(
        name,
        "id",
    ) || text::same_text(name, "deps") || text::same_text(name, "unblocks") || text::same_text(
        name,
        "blocked_by",
    ) || text::same_text(name, "subtasks");
    proof {
        let k = reserved_keys();
        assert(k[0] == "seq"@ && k[1] == "timestamp"@ && k[2] == "op"@ && k[3] == "task_id"@);
        assert(k[4] == "_meta"@ && k[5] == "id"@ && k[6] == "deps"@ && k[7] == "unblocks"@);
        assert(k[8] == "blocked_by"@ && k[9] == "subtasks"@);
    }
    r
}

/// A moment in UTC: seconds since 1970 and the nanoseconds within the second.
#[derive(Clone, Copy, Debug, PartialEq, Eq, Structural)]
pub struct Timestamp {
    pub secs: i64,
    pub nanos: u32,
}

/// A task's fields in the model.
pub type FieldsV = Map<Seq<char>, JsonV>;

/// A task's edges in the model: the targets of each relationship type.
pub type RelsV = Map<Seq<char>, Seq<Seq<char>>>;

/// One task as the log leaves it.
pub struct TaskState {
    pub id: String,
    pub relationships: StrMap<Vec<String>>,
    pub custom_fields: StrMap<Json>,
    pub create_time: Option<Timestamp>,
    pub update_time: Option<Timestamp>,
    pub close_time: Option<Timestamp>,
}

/// The model of a [`TaskState`].
#[verifier::ext_equal]
pub struct TaskV {
    pub id: Seq<char>,
    pub relationships: RelsV,
    pub custom_fields: FieldsV,
    pub create_time: Option<Timestamp>,
    pub update_time: Option<Timestamp>,
    pub close_time: Option<Timestamp>,
}

/// The tasks by id, in the model.
pub type StateV = Map<Seq<char>, TaskV>;

impl View for TaskState {
    type V = TaskV;

    open spec fn view(&self) -> TaskV {
        TaskV {
            id: self.id@,
            relationships: self.relationships@,
            custom_fields: self.custom_fields@,
            create_time: self.create_time,
            update_time: self.update_time,
            close_time: self.close_time,
        }
    }
}

impl DeepView for TaskState {
    type V = TaskV;

    open spec fn deep_view(&self) -> TaskV {
        self@
    }
}

impl Data for TaskState {
    fn copy(&self) -> (r: Self) {
        TaskState {
            id: self.id.clone(),
            relationships: self.relationships.copy(),
            custom_fields: self.custom_fields.copy(),
            create_time: self.create_time,
            update_time: self.update_time,
            close_time: self.close_time,
        }
    }
}

/// A task without fields, edges or times.
pub open spec fn blank_task(id: Seq<char>) -> TaskV {
    TaskV {
        id,
        relationships: Map::empty(),
        custom_fields: Map::empty(),
        create_time: None,
        update_time: None,
        close_time: None,
    }
}

/// The targets of `rel` among a task's edges.
pub open spec fn targets(rels: RelsV, rel: Seq<char>) -> Seq<Seq<char>> {
    if rels.contains_key(rel) {
        rels[rel]
    } else {
        Seq::empty()
    }
}

impl TaskState {
    /// A task without fields, edges or times.
    pub fn blank(id: &str) -> (r: Self)
        ensures
            r@ == blank_task(id@),
    {
        TaskState {
            id: String::from_str(id),
            relationships: StrMap::new(),
            custom_fields: StrMap::new(),
            create_time: None,
            update_time: None,
            close_time: None,
        }
    }

    /// The targets of the default blocker edges.
    pub fn depends_on(&self) -> (r: Vec<String>)
        ensures
            r.deep_view() == targets(self@.relationships, DEPENDS_ON@),
    {
        match self.relationships.get(DEPENDS_ON) {
            Some(v) => v.copy(),
            None => {
                let r: Vec<String> = Vec::new();
                assert(r.deep_view() =~= Seq::empty());
                r
            },
        }
    }
}

/// What an event does to its task.
#[derive(Clone, Copy, Debug, PartialEq, Eq, Structural)]
pub enum OpType {
    Create,
    Update,
    Append,
    AddEdge,
    RemoveEdge,
    Delete,
}

/// One entry of the log.
pub struct MutationEvent {
    pub seq: u64,
    pub timestamp: Timestamp,
    pub op: OpType,
    pub task_id: String,
    pub payload: StrMap<Json>,
    /// The event this one takes back, if it is an undo.
    pub undoes: Option<u64>,
}

/// The model of a [`MutationEvent`].
#[verifier::ext_equal]
pub struct EventV {
    pub seq: u64,
    pub timestamp: Timestamp,
    pub op: OpType,
    pub task_id: Seq<char>,
    pub payload: FieldsV,
    pub undoes: Option<u64>,
}

impl View for MutationEvent {
    type V = EventV;

    open spec fn view(&self) -> EventV {
        EventV {
            seq: self.seq,
            timestamp: self.timestamp,
            op: self.op,
            task_id: self.task_id@,
            payload: self.payload@,
            undoes: self.undoes,
        }
    }
}

impl DeepView for MutationEvent {
    type V = EventV;

    open spec fn deep_view(&self) -> EventV {
        self@
    }
}

impl Data for MutationEvent {
    fn copy(&self) -> (r: Self) {
        MutationEvent {
            seq: self.seq,
            timestamp: self.timestamp,
            op: self.op,
            task_id: self.task_id.clone(),
            payload: self.payload.copy(),
            undoes: self.undoes,
        }
    }
}

/// A draft event: sequence number 0, to be assigned when it is appended.
pub open spec fn draft(op: OpType, task_id: Seq<char>, payload: FieldsV, at: Timestamp) -> EventV {
    EventV { seq: 0, timestamp: at, op, task_id, payload, undoes: None }
}

impl MutationEvent {
    /// A draft of an event at a given time.
    pub fn new(op: OpType, task_id: &str, payload: StrMap<Json>, at: Timestamp) -> (r: Self)
        ensures
            r@ == draft(op, task_id@, payload@, at),
    {
        MutationEvent {
            seq: 0,
            timestamp: at,
            op,
            task_id: String::from_str(task_id),
            payload,
            undoes: None,
        }
    }
}

/// Whether the task's status field holds the done status.
pub open spec fn done_in(fields: FieldsV, status_field: Seq<char>, done: Seq<char>) -> bool {
    fields.contains_key(status_field) && fields[status_field] == JsonV::Str(done)
}

/// Whether `task` is done.
pub fn is_done(task: &TaskState, status_field: &str, done_status: &str) -> (r: bool)
    ensures
        r == done_in(task@.custom_fields, status_field@, done_status@),
{
    match task.custom_fields.get(status_field) {
        Some(Json::Str(s)) => text::same_text(s.as_str(), done_status),
        _ => false,
    }
}

/// The text under `key`, or under `legacy` where `key` holds none.
pub open spec fn text_under(
    payload: FieldsV,
    key: Seq<char>,
    legacy: Seq<char>,
) -> Option<Seq<char>> {
    if payload.contains_key(key) && payload[key] is Str {
        Some(payload[key]->Str_0)
    } else if payload.contains_key(legacy) && payload[legacy] is Str {
        Some(payload[legacy]->Str_0)
    } else {
        None
    }
}

/// The target that an edge payload names.
pub open spec fn target_of(payload: FieldsV) -> Option<Seq<char>> {
    text_under(payload, TARGET_KEY@, "dep"@)
}

/// The relationship type that an edge payload names, or the default one.
pub open spec fn rel_of(payload: FieldsV) -> Seq<char> {
    match text_under(payload, REL_KEY@, "type"@) {
        Some(r) => r,
        None => DEPENDS_ON@,
    }
}

fn find_text<'a>(payload: &'a StrMap<Json>, key: &str, legacy: &str) -> (r: Option<&'a String>)
    ensures
        match r {
            Some(s) => text_under(payload@, key@, legacy@) == Some(s@),
            None => text_under(payload@, key@, legacy@) is None,
        },
{
    if let Some(Json::Str(s)) = payload.get(key) {
        return Some(s);
    }
    if let Some(Json::Str(s)) = payload.get(legacy) {
        return Some(s);
    }
    None
}

/// The target of an edge payload, under its current or its older key.
pub fn edge_target(payload: &StrMap<Json>) -> (r: Option<&String>)
    ensures
        match r {
            Some(s) => target_of(payload@) == Some(s@),
            None => target_of(payload@) is None,
        },
{
    find_text(payload, TARGET_KEY, "dep")
}

/// The relationship type of an edge payload, under its current or its older
/// key, or the default type.
pub fn edge_rel(payload: &StrMap<Json>) -> (r: String)
    ensures
        r@ == rel_of(payload@),
{
    match find_text(payload, REL_KEY, "type") {
        Some(s) => s.clone(),
        None => String::from_str(DEPENDS_ON),
    }
}

/// An edge payload in the older form, with `dep` and `type`, reads like one with
/// `target` and `rel`; where both forms stand, the newer one counts.
pub proof fn older_edges_read_the_same(payload: FieldsV, t: Seq<char>, r: Seq<char>)
    ensures
        ({
            let old = payload.remove("target"@).remove("rel"@).insert("dep"@, JsonV::Str(t)).insert(
                "type"@,
                JsonV::Str(r),
            );
            let new = payload.insert("target"@, JsonV::Str(t)).insert("rel"@, JsonV::Str(r));
            &&& target_of(new) == Some(t)
            &&& rel_of(new) == r
            &&& target_of(old) == target_of(new)
            &&& rel_of(old) == rel_of(new)
        }),
        target_of(Map::empty()) is None,
        rel_of(Map::empty()) == "depends_on"@,
{
    reveal_strlit("target");
    reveal_strlit("rel");
    reveal_strlit("dep");
    reveal_strlit("type");
    assert("target"@.len() == 6 && "rel"@.len() == 3 && "dep"@.len() == 3 && "type"@.len() == 4);
    assert("rel"@[0] != "dep"@[0]);
}

} // verus!
