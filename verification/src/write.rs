//! Writing events to the log.

use crate::compensate;
use crate::config::{Config, WorkflowConfig};
use crate::engine;
use crate::error::{self, CodedError, DynError, ExitCode};
use crate::fields;
use crate::json::{self, Json, JsonV};
use crate::model::{
    self, EventV, FieldsV, MutationEvent, OpType, RelsV, StateV, TaskState, TaskV, Timestamp,
    STATUS_KEY, TASK_TYPE_KEY,
};
use crate::order;
use crate::read;
use crate::store::{self, Store};
use crate::strmap::{self, Data, StrMap};
use crate::text;
use crate::undo;
use vstd::prelude::*;

verus! {

/// What a write did: the events it appended, and the field names it brought in.
pub struct WriteOutcome {
    pub written: Vec<MutationEvent>,
    pub new_fields: Vec<String>,
}

/// The payload of a new task: the default status where none is named, and the
/// declared defaults.
pub open spec fn new_task_fields(
    payload: FieldsV,
    default_status: Seq<char>,
    stamps: FieldsV,
) -> FieldsV {
    let started = if default_status.len() > 0 && !payload.contains_key(STATUS_KEY@) {
        payload.insert(STATUS_KEY@, JsonV::Str(default_status))
    } else {
        payload
    };
    started.union_prefer_right(stamps)
}

/// The draft that creates a task.
///
/// A task without a status starts with the configured one, if there is one; a
/// status of null counts as named. `stamps` are the defaults that the task's
/// type declares for what the payload leaves out.
pub fn create_draft(
    config: &Config,
    id: &str,
    payload: StrMap<Json>,
    stamps: &StrMap<Json>,
    at: Timestamp,
) -> (r: MutationEvent)
    ensures
        r@ == model::draft(
            OpType::Create,
            id@,
            new_task_fields(payload@, config.workflow.default_status@, stamps@),
            at,
        ),
{
    let mut fields = payload;
    if !text::is_blank(config.workflow.default_status.as_str()) && !fields.contains_key(STATUS_KEY) {
        fields.insert(
            String::from_str(STATUS_KEY),
            Json::Str(config.workflow.default_status.clone()),
        );
    }
    let ghost before = fields@;
    let n = stamps.len();
    let ghost keys = stamps.keys_view();
    let mut i: usize = 0;
    proof {
        strmap::lemma_prefix(stamps@, keys, 0);
        assert(before =~= before.union_prefer_right(strmap::prefix(stamps@, keys, 0)));
    }
    while i < n
        invariant
            i <= n,
            n == keys.len(),
            keys == stamps.keys_view(),
            strmap::ascending(keys),
            keys.to_set() == stamps@.dom(),
            fields@ == before.union_prefer_right(strmap::prefix(stamps@, keys, i as nat)),
        decreases n - i,
    {
        fields.insert(stamps.key_at(i).clone(), stamps.value_at(i).copy());
        proof {
            strmap::lemma_prefix(stamps@, keys, i as nat);
            assert(fields@ =~= before.union_prefer_right(
                strmap::prefix(stamps@, keys, (i + 1) as nat),
            ));
        }
        i += 1;
    }
    proof {
        strmap::lemma_prefix(stamps@, keys, n as nat);
    }
    MutationEvent::new(OpType::Create, id, fields, at)
}

/// Why an event cannot happen to the tasks there are: a task is created once,
/// nothing else happens to one that does not exist, and an edge leads to
/// another task that exists.
pub open spec fn event_objection(s: StateV, e: EventV) -> Option<Seq<char>> {
    if e.op == OpType::Create && s.contains_key(e.task_id) {
        Some("task `"@ + e.task_id + "` already exists"@)
    } else if e.op != OpType::Create && !s.contains_key(e.task_id) {
        Some("no task `"@ + e.task_id + "`"@)
    } else if e.op == OpType::AddEdge {
        match model::target_of(e.payload) {
            None => None,
            Some(t) => if !s.contains_key(t) {
                Some("no task `"@ + t + "`"@)
            } else if t == e.task_id {
                Some("task `"@ + t + "` can't reference itself"@)
            } else {
                None
            },
        }
    } else {
        None
    }
}

/// Whether two tasks hold the same fields and edges.
pub open spec fn same_content(a: TaskV, b: TaskV) -> bool {
    &&& compensate::field_changes(a.custom_fields, b.custom_fields) == Map::<
        Seq<char>,
        JsonV,
    >::empty()
    &&& json::json_same(order::deps_value(a.relationships), order::deps_value(b.relationships))
}

/// Whether an event changes anything: it makes or ends a task, or leaves other
/// fields or edges.
pub open spec fn matters(s: StateV, e: EventV, done: Seq<char>) -> bool {
    e.op == OpType::Create || e.op == OpType::Delete || !same_content(
        s[e.task_id],
        engine::step(s, e, done)[e.task_id],
    )
}

/// The drafts that change anything when their turn comes.
pub open spec fn vetted(s: StateV, drafts: Seq<EventV>, done: Seq<char>) -> Seq<EventV>
    decreases drafts.len(),
{
    if drafts.len() == 0 {
        Seq::empty()
    } else {
        let rest = vetted(s, drafts.drop_last(), done);
        if matters(engine::replay(s, rest, done), drafts.last(), done) {
            rest.push(drafts.last())
        } else {
            rest
        }
    }
}

/// Why the drafts cannot happen one after the other: the objection to the first
/// of them that has one.
pub open spec fn objection(s: StateV, drafts: Seq<EventV>, done: Seq<char>) -> Option<Seq<char>>
    decreases drafts.len(),
{
    if drafts.len() == 0 {
        None
    } else {
        match objection(s, drafts.drop_last(), done) {
            Some(m) => Some(m),
            None => event_objection(
                engine::replay(s, vetted(s, drafts.drop_last(), done), done),
                drafts.last(),
            ),
        }
    }
}

proof fn lemma_objection_stays(s: StateV, drafts: Seq<EventV>, done: Seq<char>, n: int)
    requires
        0 <= n <= drafts.len(),
        objection(s, drafts.take(n), done) is Some,
    ensures
        objection(s, drafts, done) == objection(s, drafts.take(n), done),
    decreases drafts.len() - n,
{
    if n == drafts.len() {
        assert(drafts.take(n) =~= drafts);
    } else {
        assert(drafts.take(n + 1).drop_last() =~= drafts.take(n));
        lemma_objection_stays(s, drafts, done, n + 1);
    }
}

fn object(state: &StrMap<TaskState>, e: &MutationEvent) -> (r: Option<String>)
    ensures
        r.deep_view() == event_objection(state@, e@),
{
    let id = e.task_id.as_str();
    let there = state.contains_key(id);
    match e.op {
        OpType::Create => if there {
            Some(text::cat3("task `", id, "` already exists"))
        } else {
            None
        },
        op => {
            if !there {
                return Some(text::cat3("no task `", id, "`"));
            }
            let adds = match op {
                OpType::AddEdge => true,
                _ => false,
            };
            if !adds {
                return None;
            }
            match model::edge_target(&e.payload) {
                None => None,
                Some(t) => {
                    if !state.contains_key(t.as_str()) {
                        Some(text::cat3("no task `", t.as_str(), "`"))
                    } else if text::same_text(t.as_str(), id) {
                        Some(text::cat3("task `", t.as_str(), "` can't reference itself"))
                    } else {
                        None
                    }
                },
            }
        },
    }
}

fn alike(a: &TaskState, b: &TaskState) -> (r: bool)
    ensures
        r == same_content(a@, b@),
{
    compensate::changed_fields(&a.custom_fields, &b.custom_fields).is_empty() && json::same_json(
        &order::deps_object(&a.relationships),
        &order::deps_object(&b.relationships),
    )
}

/// Looks at the drafts of a write: refuses them if one cannot happen to the
/// tasks of `state`, and leaves out those that change nothing.
pub fn vet_events(state: StrMap<TaskState>, drafts: &Vec<MutationEvent>, done_status: &str) -> (r:
    Result<Vec<MutationEvent>, String>)
    ensures
        match r {
            Ok(kept) => objection(state@, drafts.deep_view(), done_status@) is None
                && kept.deep_view() == vetted(state@, drafts.deep_view(), done_status@),
            Err(m) => objection(state@, drafts.deep_view(), done_status@) == Some(m@),
        },
{
    let ghost s = state@;
    let ghost all = drafts.deep_view();
    let ghost done = done_status@;
    let mut now = state;
    let mut kept: Vec<MutationEvent> = Vec::new();
    let mut i: usize = 0;
    assert(all.take(0) =~= Seq::empty());
    assert(kept.deep_view() =~= Seq::empty());
    while i < drafts.len()
        invariant
            i <= drafts.len(),
            s == state@,
            all == drafts.deep_view(),
            done == done_status@,
            kept.deep_view() == vetted(s, all.take(i as int), done),
            now@ == engine::replay(s, kept.deep_view(), done),
            objection(s, all.take(i as int), done) is None,
        decreases drafts.len() - i,
    {
        let e = &drafts[i];
        let ghost longer = all.take(i as int + 1);
        let ghost had = kept.deep_view();
        let ghost before = now@;
        assert(longer.drop_last() =~= all.take(i as int));
        assert(longer.last() == e@);
        if let Some(m) = object(&now, e) {
            proof {
                lemma_objection_stays(s, all, done, i as int + 1);
            }
            return Err(m);
        }
        let id = e.task_id.as_str();
        let ends = match e.op {
            OpType::Create => true,
            OpType::Delete => true,
            _ => false,
        };
        let was = match now.get(id) {
            Some(t) => Some(t.copy()),
            None => None,
        };
        engine::apply_event(&mut now, e, done_status);
        let same = if ends {
            false
        } else {
            match (&was, now.get(id)) {
                (Some(a), Some(b)) => alike(a, b),
                _ => false,
            }
        };
        if same {
            if let Some(t) = was {
                now.insert(e.task_id.clone(), t);
            }
            assert(now@ =~= before);
        } else {
            kept.push(e.copy());
            assert(kept.deep_view() =~= had.push(e@));
            assert(kept.deep_view().drop_last() =~= had);
        }
        i += 1;
    }
    assert(all.take(all.len() as int) =~= all);
    Ok(kept)
}

/// Why a write is refused: one of its events cannot happen, or the log has no
/// numbers left for them.
pub open spec fn write_refusal(store: Store, drafts: Seq<EventV>) -> Option<Seq<char>> {
    match objection(store.state(), drafts, store.done()) {
        Some(m) => Some(m),
        None => if undo::top_seq(store.log()) + vetted(
            store.state(),
            drafts,
            store.done(),
        ).len() <= u64::MAX {
            None
        } else {
            Some("the log has no sequence number left"@)
        },
    }
}

/// What a write does to a store: nothing if it is refused, else the drafts that
/// change anything come at the end of the log, numbered on from its highest
/// number.
pub open spec fn write_effect(
    before: Store,
    after: Store,
    drafts: Seq<EventV>,
    r: Result<WriteOutcome, String>,
) -> bool {
    &&& after.config == before.config
    &&& after.baseline == before.baseline
    &&& match r {
        Ok(o) => {
            &&& write_refusal(before, drafts) is None
            &&& o.written.deep_view() == undo::numbered(
                vetted(before.state(), drafts, before.done()),
                undo::top_seq(before.log()),
            )
            &&& after.log() == before.log() + o.written.deep_view()
        },
        Err(m) => {
            &&& write_refusal(before, drafts) == Some(m@)
            &&& after.log() == before.log()
        },
    }
}

/// Writes the events of a change to the log, but for those that change nothing.
/// An event that creates a task there is already, or is about one there is not,
/// refuses the whole write, and so does a log without numbers left. `new_fields`
/// are the field names that the change brings in.
pub fn append_checked(store: &mut Store, drafts: Vec<MutationEvent>, new_fields: Vec<String>) -> (r: Result<
    WriteOutcome,
    String,
>)
    ensures
        write_effect(*old(store), *final(store), drafts.deep_view(), r),
        r matches Ok(o) ==> o.new_fields == new_fields,
{
    let n = store.mutations.len();
    let ghost log = store.log();
    let state = store::materialize(&store.config, &store.baseline, &store.mutations);
    let drafts = match vet_events(
        state,
        &drafts,
        store.config.workflow.done_status.as_str(),
    ) {
        Err(m) => {
            return Err(m);
        },
        Ok(kept) => kept,
    };
    let (kept, top) = undo::kept_prefix(&store.mutations, n);
    assert(log.take(n as int) =~= log);
    assert(drafts.deep_view().len() == drafts.len());
    if drafts.len() as u64 > u64::MAX - top {
        return Err(String::from_str("the log has no sequence number left"));
    }
    let mut next = kept;
    let mut written: Vec<MutationEvent> = Vec::new();
    assert(written.deep_view() =~= Seq::<EventV>::empty());
    let again = drafts.copy();
    assert(again.deep_view().len() == again.len());
    undo::append_numbered(&mut next, drafts, top);
    undo::append_numbered(&mut written, again, top);
    assert(written.deep_view() =~= undo::numbered(drafts.deep_view(), top));
    store.mutations = next;
    Ok(WriteOutcome { written, new_fields })
}

/// The draft that creates a task, as the only one of a write.
pub open spec fn creation(
    config: Config,
    id: Seq<char>,
    payload: FieldsV,
    stamps: FieldsV,
    at: Timestamp,
) -> Seq<EventV> {
    seq![
        model::draft(
            OpType::Create,
            id,
            new_task_fields(payload, config.workflow.default_status@, stamps),
            at,
        ),
    ]
}

/// Why a write of fields is refused, with the code the run ends with: one of
/// its events cannot happen, it brings in field names that it may not, or the
/// log has no numbers left.
pub open spec fn field_refusal(store: Store, drafts: Seq<EventV>, allow: bool) -> Option<
    (ExitCode, Seq<char>),
> {
    match objection(store.state(), drafts, store.done()) {
        Some(m) => Some((ExitCode::Error, m)),
        None => if fields::names_refused(drafts, store.state(), store.config, allow) {
            Some(
                (
                    ExitCode::Schema,
                    fields::unknown_names_text(
                        fields::introduced(
                            drafts,
                            fields::known_names(store.config, store.state()),
                        ),
                    ),
                ),
            )
        } else {
            match write_refusal(store, drafts) {
                Some(m) => Some((ExitCode::Error, m)),
                None => None,
            }
        },
    }
}

/// What a write of fields does to a store: nothing if it is refused, else the
/// drafts that change anything come at the end of the log, numbered on from its
/// highest number.
pub open spec fn field_effect(
    before: Store,
    after: Store,
    drafts: Seq<EventV>,
    allow: bool,
    r: Result<WriteOutcome, DynError>,
) -> bool {
    &&& after.config == before.config
    &&& after.baseline == before.baseline
    &&& match r {
        Ok(o) => {
            &&& field_refusal(before, drafts, allow) is None
            &&& o.written.deep_view() == undo::numbered(
                vetted(before.state(), drafts, before.done()),
                undo::top_seq(before.log()),
            )
            &&& o.new_fields.deep_view() == fields::introduced(
                drafts,
                fields::known_names(before.config, before.state()),
            )
            &&& after.log() == before.log() + o.written.deep_view()
        },
        Err(e) => {
            &&& field_refusal(before, drafts, allow) matches Some((code, m)) && error::fails_with(
                e,
                code,
                m,
            )
            &&& after.log() == before.log()
        },
    }
}

/// Writes fields: as [`append_checked`] does, if the field names that no task
/// uses yet are allowed.
pub fn update(store: &mut Store, drafts: Vec<MutationEvent>, allow_new_fields: bool) -> (r: Result<
    WriteOutcome,
    DynError,
>)
    ensures
        field_effect(*old(store), *final(store), drafts.deep_view(), allow_new_fields, r),
{
    let state = store::materialize(&store.config, &store.baseline, &store.mutations);
    match fields::vet_new_fields(&drafts, &state, &store.config, allow_new_fields) {
        Err(names) => match vet_events(
            state,
            &drafts,
            store.config.workflow.done_status.as_str(),
        ) {
            Err(m) => Err(DynError::Message(m)),
            Ok(_) => Err(CodedError::schema(names.as_str())),
        },
        Ok(names) => match append_checked(store, drafts, names) {
            Err(m) => Err(DynError::Message(m)),
            Ok(o) => Ok(o),
        },
    }
}

/// Creates a task; see [`create_draft`] and [`update`].
pub fn create(
    store: &mut Store,
    id: &str,
    payload: StrMap<Json>,
    stamps: &StrMap<Json>,
    allow_new_fields: bool,
    at: Timestamp,
) -> (r: Result<WriteOutcome, DynError>)
    ensures
        field_effect(
            *old(store),
            *final(store),
            creation(old(store).config, id@, payload@, stamps@, at),
            allow_new_fields,
            r,
        ),
{
    let draft = create_draft(&store.config, id, payload, stamps, at);
    let mut drafts: Vec<MutationEvent> = Vec::new();
    drafts.push(draft);
    assert(drafts.deep_view() =~= creation(store.config, id@, payload@, stamps@, at));
    update(store, drafts, allow_new_fields)
}

/// Deletes a task. To delete one that does not exist is refused.
pub fn delete(store: &mut Store, id: &str, at: Timestamp) -> (r: Result<WriteOutcome, String>)
    ensures
        write_effect(
            *old(store),
            *final(store),
            seq![model::draft(OpType::Delete, id@, Map::empty(), at)],
            r,
        ),
        r matches Ok(o) ==> o.new_fields.len() == 0,
{
    let mut drafts: Vec<MutationEvent> = Vec::new();
    drafts.push(MutationEvent::new(OpType::Delete, id, StrMap::new(), at));
    assert(drafts.deep_view() =~= seq![model::draft(OpType::Delete, id@, Map::empty(), at)]);
    append_checked(store, drafts, Vec::new())
}

proof fn lemma_numbers_do_not_matter(s: StateV, drafts: Seq<EventV>, top: u64, done: Seq<char>)
    ensures
        engine::replay(s, undo::numbered(drafts, top), done) == engine::replay(s, drafts, done),
    decreases drafts.len(),
{
    if drafts.len() > 0 {
        let shorter = drafts.drop_last();
        assert(undo::numbered(drafts, top).drop_last() =~= undo::numbered(shorter, top));
        lemma_numbers_do_not_matter(s, shorter, top, done);
    }
}

proof fn lemma_vetted_apply(s: StateV, drafts: Seq<EventV>, top: u64, done: Seq<char>)
    requires
        objection(s, drafts, done) is None,
    ensures
        engine::orphans(s, undo::numbered(vetted(s, drafts, done), top), done) == Seq::<
            u64,
        >::empty(),
    decreases drafts.len(),
{
    if drafts.len() > 0 {
        let shorter = drafts.drop_last();
        let rest = vetted(s, shorter, done);
        lemma_vetted_apply(s, shorter, top, done);
        if matters(engine::replay(s, rest, done), drafts.last(), done) {
            let all = undo::numbered(rest.push(drafts.last()), top);
            assert(all.drop_last() =~= undo::numbered(rest, top));
            lemma_numbers_do_not_matter(s, rest, top, done);
        }
    }
}

/// A write brings no events of no task into the log, and its events happen to
/// the tasks as they are.
pub proof fn writes_leave_no_orphans(
    before: Store,
    after: Store,
    drafts: Seq<EventV>,
    o: WriteOutcome,
)
    requires
        write_effect(before, after, drafts, Ok(o)),
    ensures
        engine::orphans(after.base(), after.log(), after.done()) == engine::orphans(
            before.base(),
            before.log(),
            before.done(),
        ),
        after.state() == engine::replay(
            before.state(),
            vetted(before.state(), drafts, before.done()),
            before.done(),
        ),
{
    let top = undo::top_seq(before.log());
    let done = before.done();
    let kept = vetted(before.state(), drafts, done);
    lemma_vetted_apply(before.state(), drafts, top, done);
    lemma_numbers_do_not_matter(before.state(), kept, top, done);
    engine::replay_concat(before.base(), before.log(), o.written.deep_view(), done);
    assert(engine::orphans(before.base(), before.log(), done) + Seq::<u64>::empty()
        =~= engine::orphans(before.base(), before.log(), done));
}

/// A write of fields that is accepted is a write like any other.
pub proof fn field_writes_are_writes(
    before: Store,
    after: Store,
    drafts: Seq<EventV>,
    allow: bool,
    o: WriteOutcome,
)
    requires
        field_effect(before, after, drafts, allow, Ok(o)),
    ensures
        write_effect(before, after, drafts, Ok(o)),
{
}

proof fn lemma_written_names_finite(drafts: Seq<EventV>)
    requires
        forall|i: int| 0 <= i < drafts.len() ==> (#[trigger] drafts[i]).payload.dom().finite(),
    ensures
        fields::written_names(drafts).finite(),
    decreases drafts.len(),
{
    if drafts.len() > 0 {
        let rest = drafts.drop_last();
        assert forall|i: int| 0 <= i < rest.len() implies (
        #[trigger] rest[i]).payload.dom().finite() by {
            assert(rest[i] == drafts[i]);
        }
        lemma_written_names_finite(rest);
        assert(drafts.last() == drafts[drafts.len() - 1]);
    }
}

/// Unless new field names are allowed, a write to a store that has tasks uses
/// only the field names that the store knows.
pub proof fn unknown_names_stay_out(
    before: Store,
    after: Store,
    drafts: Seq<EventV>,
    o: WriteOutcome,
)
    requires
        field_effect(before, after, drafts, false, Ok(o)),
        before.state() != Map::<Seq<char>, TaskV>::empty(),
        forall|i: int| 0 <= i < drafts.len() ==> (#[trigger] drafts[i]).payload.dom().finite(),
    ensures
        fields::written_names(drafts).subset_of(
            fields::known_names(before.config, before.state()),
        ),
        o.new_fields.len() == 0,
{
    let known = fields::known_names(before.config, before.state());
    let new = fields::written_names(drafts).difference(known);
    lemma_written_names_finite(drafts);
    strmap::sorted_of_finite(new);
    assert(o.new_fields.deep_view().len() == 0);
    assert forall|k: Seq<char>| fields::written_names(drafts).contains(k) implies known.contains(
        k,
    ) by {
        if !known.contains(k) {
            assert(new.contains(k));
            assert(strmap::sorted_of(new).to_set().contains(k));
            assert(strmap::sorted_of(new).contains(k));
        }
    }
}

/// A task that is created is there, and one that is deleted is not; the other
/// tasks stay as they were.
pub proof fn created_is_there_and_deleted_is_gone(
    before: Store,
    after: Store,
    id: Seq<char>,
    payload: FieldsV,
    stamps: FieldsV,
    allow: bool,
    at: Timestamp,
    o: WriteOutcome,
)
    ensures
        field_effect(
            before,
            after,
            creation(before.config, id, payload, stamps, at),
            allow,
            Ok(o),
        ) ==> {
            &&& !before.state().contains_key(id)
            &&& after.state().contains_key(id)
            &&& after.state().remove(id) == before.state()
        },
        write_effect(
            before,
            after,
            seq![model::draft(OpType::Delete, id, Map::empty(), at)],
            Ok(o),
        ) ==> before.state().contains_key(id) && after.state() == before.state().remove(id),
{
    let s = before.state();
    let done = before.done();
    let birth = creation(before.config, id, payload, stamps, at);
    if field_effect(before, after, birth, allow, Ok(o)) {
        field_writes_are_writes(before, after, birth, allow, o);
        writes_leave_no_orphans(before, after, birth, o);
        assert(birth.drop_last() =~= Seq::empty());
        assert(vetted(s, birth.drop_last(), done) =~= Seq::empty());
        assert(objection(s, birth.drop_last(), done) is None);
        assert(vetted(s, birth, done) =~= birth);
        assert(after.state() == engine::step(s, birth[0], done));
        assert(after.state().remove(id) =~= s);
    }
    let death = seq![model::draft(OpType::Delete, id, Map::empty(), at)];
    if write_effect(before, after, death, Ok(o)) {
        writes_leave_no_orphans(before, after, death, o);
        assert(death.drop_last() =~= Seq::empty());
        assert(vetted(s, death.drop_last(), done) =~= Seq::empty());
        assert(objection(s, death.drop_last(), done) is None);
        assert(vetted(s, death, done) =~= death);
        assert(after.state() == engine::step(s, death[0], done));
    }
}

/// Setting fields to what they already are, or adding an edge that is already
/// there, is not written: a change made a second time leaves the log alone.
pub proof fn a_repeated_change_is_not_written(s: StateV, e: EventV, done: Seq<char>)
    requires
        s.contains_key(e.task_id),
        e.op == OpType::Update || e.op == OpType::AddEdge,
    ensures
        vetted(engine::step(s, e, done), seq![e], done) == Seq::<EventV>::empty(),
{
    let once = engine::step(s, e, done);
    let twice = engine::step(once, e, done);
    let a = once[e.task_id];
    let b = twice[e.task_id];
    assert(b.custom_fields =~= a.custom_fields);
    if e.op == OpType::AddEdge {
        if let Some(t) = model::target_of(e.payload) {
            engine::add_edge_is_idempotent(
                s[e.task_id].relationships,
                model::rel_of(e.payload),
                t,
            );
        }
    }
    assert(b.relationships == a.relationships);
    json::json_same_reflexive(order::deps_value(a.relationships));
    let none = compensate::field_changes(a.custom_fields, b.custom_fields);
    assert forall|k: Seq<char>| !#[trigger] none.contains_key(k) by {
        if a.custom_fields.contains_key(k) {
            json::json_same_reflexive(a.custom_fields[k]);
        }
    }
    assert(none =~= Map::<Seq<char>, JsonV>::empty());
    assert(seq![e].drop_last() =~= Seq::empty());
    assert(vetted(once, seq![e].drop_last(), done) =~= Seq::empty());
}

/// Whether a field is given under its display name and under its key at once.
pub open spec fn named_twice(fields: FieldsV, shown: Seq<char>, stored: Seq<char>) -> bool {
    shown != stored && fields.contains_key(shown) && fields.contains_key(stored)
}

/// Why a field that is given under two names is refused.
pub open spec fn twice_text(shown: Seq<char>, stored: Seq<char>) -> Seq<char> {
    "`"@ + shown + "` and `"@ + stored + "` name the same field; set one of them"@
}

fn store_key(fields: &mut StrMap<Json>, shown: &str, stored: &str) -> (r: Result<(), String>)
    ensures
        r is Err <==> named_twice(old(fields)@, shown@, stored@),
        r is Ok ==> final(fields)@ == read::renamed(old(fields)@, shown@, stored@),
        r matches Err(m) ==> m@ == twice_text(shown@, stored@),
{
    if !text::same_text(shown, stored) && fields.contains_key(shown) && fields.contains_key(
        stored,
    ) {
        return Err(
            text::cat5("`", shown, "` and `", stored, "` name the same field; set one of them"),
        );
    }
    read::rename_key(fields, shown, stored);
    Ok(())
}

/// The fields of a payload with the status and the type under their keys, or
/// why they are refused.
pub open spec fn canonical(fields: FieldsV, status: Seq<char>, kind: Seq<char>) -> Result<
    FieldsV,
    Seq<char>,
> {
    let started = read::renamed(fields, status, STATUS_KEY@);
    if named_twice(fields, status, STATUS_KEY@) {
        Err(twice_text(status, STATUS_KEY@))
    } else if named_twice(started, kind, TASK_TYPE_KEY@) {
        Err(twice_text(kind, TASK_TYPE_KEY@))
    } else {
        Ok(read::renamed(started, kind, TASK_TYPE_KEY@))
    }
}

/// Gives the status and type fields of a payload their keys in place of their
/// display names. One that is given under both names is refused.
pub fn canonicalize_fields(fields: &mut StrMap<Json>, workflow: &WorkflowConfig) -> (r: Result<
    (),
    String,
>)
    ensures
        match canonical(old(fields)@, workflow.status_field@, workflow.type_field@) {
            Ok(m) => r is Ok && final(fields)@ == m,
            Err(e) => r matches Err(m) && m@ == e,
        },
{
    match store_key(fields, workflow.status_field.as_str(), STATUS_KEY) {
        Err(m) => Err(m),
        Ok(()) => store_key(fields, workflow.type_field.as_str(), TASK_TYPE_KEY),
    }
}

/// A field is shown under the name it was given: fields that are given under
/// display names, stored, and shown again are the same. The display names have
/// to be two names, and neither may be the key of the other field.
pub proof fn given_names_are_shown(fields: FieldsV, status: Seq<char>, kind: Seq<char>)
    requires
        status != kind,
        status != TASK_TYPE_KEY@,
        kind != STATUS_KEY@,
        status != STATUS_KEY@ ==> !fields.contains_key(STATUS_KEY@),
        kind != TASK_TYPE_KEY@ ==> !fields.contains_key(TASK_TYPE_KEY@),
    ensures
        read::displayed(
            read::renamed(read::renamed(fields, status, STATUS_KEY@), kind, TASK_TYPE_KEY@),
            status,
            kind,
        ) == fields,
{
    reveal_strlit("status");
    reveal_strlit("task_type");
    assert(STATUS_KEY@ != TASK_TYPE_KEY@) by {
        assert(STATUS_KEY@.len() == 6 && TASK_TYPE_KEY@.len() == 9);
    }
    let stored = read::renamed(
        read::renamed(fields, status, STATUS_KEY@),
        kind,
        TASK_TYPE_KEY@,
    );
    assert(read::displayed(stored, status, kind) =~= fields);
}

/// A new task holds what it was given: a declared default where there is one,
/// else the value of the payload, and where neither names a status the
/// configured one, if there is one. A null stands for no value. It has no edges,
/// and it is created and changed at the time of the write.
pub proof fn new_tasks_hold_what_they_are_given(
    before: Store,
    after: Store,
    id: Seq<char>,
    payload: FieldsV,
    stamps: FieldsV,
    allow: bool,
    at: Timestamp,
    o: WriteOutcome,
    k: Seq<char>,
)
    requires
        field_effect(
            before,
            after,
            creation(before.config, id, payload, stamps, at),
            allow,
            Ok(o),
        ),
    ensures
        ({
            let t = after.state()[id];
            let held = t.custom_fields;
            let start = before.config.workflow.default_status@;
            let given = payload.contains_key(k) || stamps.contains_key(k);
            &&& after.state().contains_key(id)
            &&& stamps.contains_key(k) && !(stamps[k] is Null) ==> held.contains_key(k) && held[k]
                == stamps[k]
            &&& stamps.contains_key(k) && stamps[k] is Null ==> !held.contains_key(k)
            &&& !stamps.contains_key(k) && payload.contains_key(k) && !(payload[k] is Null)
                ==> held.contains_key(k) && held[k] == payload[k]
            &&& !stamps.contains_key(k) && payload.contains_key(k) && payload[k] is Null
                ==> !held.contains_key(k)
            &&& !given && k != "status"@ ==> !held.contains_key(k)
            &&& !given && k == "status"@ && start.len() > 0 ==> held.contains_key(k) && held[k]
                == JsonV::Str(start)
            &&& !given && k == "status"@ && start.len() == 0 ==> !held.contains_key(k)
            &&& t.id == id
            &&& t.relationships == Map::<Seq<char>, Seq<Seq<char>>>::empty()
            &&& t.create_time == Some(at)
            &&& t.update_time == Some(at)
        }),
        after.log().len() == before.log().len() + 1,
{
    let birth = creation(before.config, id, payload, stamps, at);
    let s = before.state();
    let done = before.done();
    created_is_there_and_deleted_is_gone(before, after, id, payload, stamps, allow, at, o);
    field_writes_are_writes(before, after, birth, allow, o);
    writes_leave_no_orphans(before, after, birth, o);
    assert(birth.drop_last() =~= Seq::empty());
    assert(vetted(s, birth.drop_last(), done) =~= Seq::empty());
    assert(vetted(s, birth, done) =~= birth);
    assert(after.state() == engine::step(s, birth[0], done));
}

/// Whether two tasks hold the same fields with the same values.
pub open spec fn same_values(a: FieldsV, b: FieldsV) -> bool {
    forall|k: Seq<char>|
        {
            &&& #[trigger] a.contains_key(k) <==> b.contains_key(k)
            &&& a.contains_key(k) ==> json::json_same(a[k], b[k])
        }
}

/// A write of one event leaves the tasks as the event leaves them, or as they
/// were where it changes no field and no edge; what the log held before stays,
/// and the new event, if there is one, comes last with a higher number.
pub proof fn single_writes_take_effect(before: Store, after: Store, e: EventV, o: WriteOutcome)
    requires
        write_effect(before, after, seq![e], Ok(o)),
    ensures
        after.state() == engine::step(before.state(), e, before.done()) || (after.state()
            == before.state() && e.op != OpType::Create && e.op != OpType::Delete),
        e.op == OpType::Create || e.op == OpType::Delete ==> after.log().len()
            == before.log().len() + 1,
        after.log().len() <= before.log().len() + 1,
        after.log().len() == before.log().len() ==> same_values(
            before.state()[e.task_id].custom_fields,
            engine::step(before.state(), e, before.done())[e.task_id].custom_fields,
        ),
        after.log().take(before.log().len() as int) == before.log(),
        after.log().len() > before.log().len() ==> {
            let last = after.log().last();
            &&& last.op == e.op
            &&& last.task_id == e.task_id
            &&& last.payload == e.payload
            &&& last.timestamp == e.timestamp
            &&& forall|i: int|
                0 <= i < before.log().len() ==> (#[trigger] before.log()[i]).seq < last.seq
        },
        e.op == OpType::Create ==> !before.state().contains_key(e.task_id),
        e.op != OpType::Create ==> before.state().contains_key(e.task_id),
{
    let s = before.state();
    let done = before.done();
    let one = seq![e];
    writes_leave_no_orphans(before, after, one, o);
    assert(one.drop_last() =~= Seq::empty());
    assert(vetted(s, one.drop_last(), done) =~= Seq::empty());
    assert(objection(s, one.drop_last(), done) is None);
    let kept = vetted(s, one, done);
    assert(kept =~= one || kept =~= Seq::empty());
    let new = undo::numbered(kept, undo::top_seq(before.log()));
    assert(after.log().take(before.log().len() as int) =~= before.log());
    if kept.len() == 0 {
        let a = engine::step(s, e, done)[e.task_id].custom_fields;
        let b = s[e.task_id].custom_fields;
        let changes = compensate::field_changes(b, a);
        assert(same_content(s[e.task_id], engine::step(s, e, done)[e.task_id]));
        assert forall|k: Seq<char>|
            {
                &&& #[trigger] b.contains_key(k) <==> a.contains_key(k)
                &&& b.contains_key(k) ==> json::json_same(b[k], a[k])
            } by {
            assert(!changes.contains_key(k));
        }
    } else {
        assert(kept[0] == e);
        assert(after.log().last() == new[0]);
        undo::the_top_number_is_the_highest(before.log());
    }
}

/// Given fields are stored under their stored names: the status field as
/// `status` and the type field as `task_type`, every other under its own. A field
/// that is given under both its names is refused.
pub proof fn given_fields_are_stored(
    fields: FieldsV,
    status: Seq<char>,
    kind: Seq<char>,
    k: Seq<char>,
)
    requires
        status != kind,
        status != "task_type"@,
        kind != "status"@,
    ensures
        ({
            let twice = (status != "status"@ && fields.contains_key(status) && fields.contains_key(
                "status"@,
            )) || (kind != "task_type"@ && fields.contains_key(kind) && fields.contains_key(
                "task_type"@,
            ));
            &&& canonical(fields, status, kind) is Err <==> twice
            &&& canonical(fields, status, kind) matches Ok(m) ==> {
                &&& fields.contains_key(status) ==> m.contains_key("status"@) && m["status"@]
                    == fields[status]
                &&& fields.contains_key(kind) ==> m.contains_key("task_type"@) && m["task_type"@]
                    == fields[kind]
                &&& status != "status"@ ==> !m.contains_key(status)
                &&& kind != "task_type"@ ==> !m.contains_key(kind)
                &&& k != status && k != kind && k != "status"@ && k != "task_type"@ ==> {
                    &&& m.contains_key(k) <==> fields.contains_key(k)
                    &&& fields.contains_key(k) ==> m[k] == fields[k]
                }
            }
        }),
{
    reveal_strlit("status");
    reveal_strlit("task_type");
    assert("status"@.len() == 6 && "task_type"@.len() == 9);
}

/// Why a single write is refused: to create a task that is there; anything else
/// about a task that is not; and an edge to a task that is not there, or to the
/// task itself.
pub proof fn writes_are_refused_for_a_reason(s: StateV, e: EventV, done: Seq<char>)
    requires
        e.payload.contains_key("target"@) ==> e.payload["target"@] is Str,
        !e.payload.contains_key("dep"@),
    ensures
        objection(s, seq![e], done) is Some <==> {
            ||| e.op == OpType::Create && s.contains_key(e.task_id)
            ||| e.op != OpType::Create && !s.contains_key(e.task_id)
            ||| e.op == OpType::AddEdge && e.payload.contains_key("target"@) && (!s.contains_key(
                e.payload["target"@]->Str_0,
            ) || e.payload["target"@]->Str_0 == e.task_id)
        },
{
    let one = seq![e];
    assert(one.drop_last() =~= Seq::empty());
    assert(vetted(s, one.drop_last(), done) =~= Seq::empty());
    assert(objection(s, one.drop_last(), done) is None);
}

/// New field names are refused unless they are allowed or the store has no tasks:
/// exactly where a write names a field that is not known.
pub proof fn unknown_names_are_refused(
    events: Seq<EventV>,
    s: StateV,
    config: Config,
    allow: bool,
)
    requires
        forall|i: int| 0 <= i < events.len() ==> (#[trigger] events[i]).payload.dom().finite(),
    ensures
        fields::names_refused(events, s, config, allow) <==> {
            &&& !allow
            &&& exists|id: Seq<char>| #[trigger] s.contains_key(id)
            &&& exists|k: Seq<char>| #[trigger]
                fields::written_names(events).contains(k) && !fields::known_names(
                    config,
                    s,
                ).contains(k)
        },
{
    let known = fields::known_names(config, s);
    let new = fields::written_names(events).difference(known);
    lemma_written_names_finite(events);
    strmap::sorted_of_finite(new);
    let names = strmap::sorted_of(new);
    if names.len() > 0 {
        assert(names.contains(names[0]));
        assert(names.to_set().contains(names[0]));
        assert(fields::written_names(events).contains(names[0]));
    }
    if exists|k: Seq<char>| #[trigger]
        fields::written_names(events).contains(k) && !known.contains(k) {
        let k = choose|k: Seq<char>| #[trigger]
            fields::written_names(events).contains(k) && !known.contains(k);
        assert(names.to_set().contains(k));
        assert(names.contains(k));
    }
    if s != Map::<Seq<char>, TaskV>::empty() {
        assert(exists|id: Seq<char>| #[trigger] s.contains_key(id)) by {
            if forall|id: Seq<char>| !#[trigger] s.contains_key(id) {
                assert(s =~= Map::empty());
            }
        }
    }
}

proof fn lemma_same_edges(a: RelsV, b: RelsV)
    requires
        a.dom().finite(),
        b.dom().finite(),
        json::json_same(order::deps_value(a), order::deps_value(b)),
    ensures
        a == b,
{
    reveal_with_fuel(json::json_same, 3);
    let (ka, kb) = (strmap::sorted_of(a.dom()), strmap::sorted_of(b.dom()));
    strmap::sorted_of_finite(a.dom());
    strmap::sorted_of_finite(b.dom());
    let x = order::deps_value(a)->Obj_0;
    let y = order::deps_value(b)->Obj_0;
    assert(x.len() == y.len());
    assert forall|i: int| 0 <= i < x.len() implies ka[i] == kb[i] && a[ka[i]] == b[kb[i]] by {
        assert(x[i].0 == y[i].0 && json::json_same(x[i].1, y[i].1));
        let (p, q) = (x[i].1->List_0, y[i].1->List_0);
        assert(x[i].1 == order::text_list(a[ka[i]]) && y[i].1 == order::text_list(b[kb[i]]));
        assert forall|j: int| 0 <= j < p.len() implies a[ka[i]][j] == b[kb[i]][j] by {
            assert(json::json_same(p[j], q[j]));
            json::sameness_goes_by_content(p[j], q[j]);
        }
        assert(a[ka[i]] =~= b[kb[i]]);
    }
    assert(ka =~= kb);
    assert(a.dom() == b.dom());
    assert forall|k: Seq<char>| a.contains_key(k) implies a[k] == b[k] by {
        assert(ka.to_set().contains(k));
        let i = choose|i: int| 0 <= i < ka.len() && ka[i] == k;
        assert(x[i].0 == k);
    }
    assert(a =~= b);
}

/// A change of edges is written: an edge that is not there yet and is added, and
/// one that is there and is taken away.
pub proof fn edge_changes_are_written(
    s: StateV,
    e: EventV,
    rel: Seq<char>,
    target: Seq<char>,
    done: Seq<char>,
)
    requires
        s.contains_key(e.task_id),
        s[e.task_id].relationships.dom().finite(),
        e.payload == compensate::edge_payload(rel, target),
        e.op == OpType::AddEdge || e.op == OpType::RemoveEdge,
        e.op == OpType::AddEdge <==> !engine::linked(s[e.task_id], rel, target),
    ensures
        vetted(s, seq![e], done) == seq![e],
{
    reveal_strlit("target");
    reveal_strlit("rel");
    assert("target"@.len() == 6 && "rel"@.len() == 3);
    let one = seq![e];
    assert(one.drop_last() =~= Seq::empty());
    assert(vetted(s, one.drop_last(), done) =~= Seq::empty());
    let a = s[e.task_id];
    let b = engine::step(s, e, done)[e.task_id];
    engine::events_link_tasks(s, e, done, rel, target);
    if same_content(a, b) {
        assert(b.relationships.dom().finite());
        lemma_same_edges(a.relationships, b.relationships);
    }
    assert(vetted(s, one, done) =~= one);
}

} // verus!
