//! The form a task is edited in, and the write a saved form means.
//!
//! A form shows part of a task, so two things can be read off a saved one: a
//! field whose value was changed is a write, and a stored field whose line is
//! gone is an unset. What the values mean is decided where they are written.

use crate::config::{Config, UntypedTasks};
use crate::error::{DynError, ExitCode};
use crate::fields;
use crate::json::{self, Json, JsonV};
use crate::model::{
    self, EventV, FieldsV, MutationEvent, OpType, StateV, TaskState, Timestamp, STATUS_KEY,
    TASK_TYPE_KEY,
};
use crate::read;
use crate::store::{self, Store};
use crate::strmap::{self, Data, StrMap, StrSet};
use crate::text;
use crate::write::WriteOutcome;
use vstd::prelude::*;

verus! {

/// Which write a saved form becomes.
#[derive(Clone, Copy, Debug, PartialEq, Eq, Structural)]
pub enum EditMode {
    /// The task exists.
    Update,
    /// The task is to be created.
    Create,
}

/// What a saved form means.
pub enum Preview {
    /// The form holds no field at all: it is discarded.
    Empty,
    /// The fields to write, under their stored names, and the names among them
    /// that need a confirmation; no fields if nothing changed.
    Ready { set: StrMap<Json>, new_fields: Vec<String> },
}

/// The model of a [`Preview`].
pub enum PreviewV {
    Empty,
    Ready(FieldsV, Seq<Seq<char>>),
}

impl View for Preview {
    type V = PreviewV;

    open spec fn view(&self) -> PreviewV {
        match self {
            Preview::Empty => PreviewV::Empty,
            Preview::Ready { set, new_fields } => PreviewV::Ready(set@, new_fields.deep_view()),
        }
    }
}

/// The form of one task, over the tasks as they were when it was opened. Fields
/// go by their display names.
pub struct EditForm {
    /// What is shown: the stored values, the defaults that apply, and blanks.
    pub template: StrMap<Json>,
    /// What the task holds; nothing for a new one.
    pub stored: StrMap<Json>,
    pub snapshot: StrMap<TaskState>,
    pub mode: EditMode,
    pub id: String,
}

/// Whether the saved value of `k` is a change: neither the stored value nor, for
/// a field that is not stored, the suggested one.
pub open spec fn changed(
    stored: FieldsV,
    template: FieldsV,
    edited: FieldsV,
    k: Seq<char>,
) -> bool {
    if stored.contains_key(k) {
        !json::json_same(stored[k], edited[k])
    } else {
        !(template.contains_key(k) && json::json_same(template[k], edited[k]))
    }
}

/// What a saved form writes: the changed values, and null for each stored field
/// that is gone.
pub open spec fn payload_of(stored: FieldsV, template: FieldsV, edited: FieldsV) -> FieldsV {
    Map::new(
        |k: Seq<char>|
            if edited.contains_key(k) {
                changed(stored, template, edited, k)
            } else {
                stored.contains_key(k)
            },
        |k: Seq<char>|
            if edited.contains_key(k) {
                edited[k]
            } else {
                JsonV::Null
            },
    )
}

/// A form that shows what is stored and is saved as it is writes nothing.
pub proof fn untouched_form_writes_nothing(stored: FieldsV, template: FieldsV)
    requires
        forall|k: Seq<char>| #[trigger]
            stored.contains_key(k) ==> template.contains_key(k) && template[k] == stored[k],
    ensures
        payload_of(stored, template, template) == Map::<Seq<char>, JsonV>::empty(),
{
    let p = payload_of(stored, template, template);
    assert forall|k: Seq<char>| !#[trigger] p.contains_key(k) by {
        if template.contains_key(k) {
            json::json_same_reflexive(template[k]);
        }
    }
    assert(p =~= Map::<Seq<char>, JsonV>::empty());
}

/// Deleting lines that only the template suggested writes nothing: what is left
/// of the form alone decides.
pub proof fn suggestions_can_go(stored: FieldsV, template: FieldsV, edited: FieldsV)
    ensures
        forall|k: Seq<char>| #[trigger]
            payload_of(stored, template, edited).contains_key(k) ==> edited.contains_key(k)
                || stored.contains_key(k),
        forall|k: Seq<char>| #[trigger]
            payload_of(stored, template, edited).contains_key(k) && !edited.contains_key(k)
                ==> payload_of(stored, template, edited)[k] == JsonV::Null,
{
}

/// What a new task's form starts from: the default status, and the type where a
/// type is demanded and only one is declared.
pub open spec fn start_of(config: Config, mode: EditMode) -> FieldsV {
    let types = config.task_types.types@;
    let status = if mode == EditMode::Create && config.workflow.default_status@.len() > 0 {
        map![STATUS_KEY@ => JsonV::Str(config.workflow.default_status@)]
    } else {
        Map::empty()
    };
    if mode == EditMode::Create && config.workflow.untyped_tasks == UntypedTasks::Deny
        && types.dom().len() == 1 {
        status.insert(TASK_TYPE_KEY@, JsonV::Str(strmap::sorted_of(types.dom())[0]))
    } else {
        status
    }
}

/// A blank for each of `names`.
pub open spec fn blanks(names: Set<Seq<char>>) -> FieldsV {
    Map::new(|k: Seq<char>| names.contains(k), |k: Seq<char>| JsonV::Str(Seq::empty()))
}

/// The form: what it starts from, the defaults of the schema and the stored
/// values, each over the one before, under display names; then a blank for every
/// other field that may be set.
pub open spec fn template_of(
    config: Config,
    mode: EditMode,
    stored: FieldsV,
    stamps: FieldsV,
    editable: Set<Seq<char>>,
) -> FieldsV {
    let w = config.workflow;
    let content = start_of(config, mode).union_prefer_right(stamps).union_prefer_right(stored);
    read::displayed(blanks(editable), w.status_field@, w.type_field@).union_prefer_right(
        read::displayed(content, w.status_field@, w.type_field@),
    )
}

/// What a form for `mode` starts from.
pub fn start_fields(config: &Config, mode: EditMode) -> (r: StrMap<Json>)
    ensures
        r@ == start_of(*config, mode),
{
    let mut content: StrMap<Json> = StrMap::new();
    if mode == EditMode::Create {
        if !text::is_blank(config.workflow.default_status.as_str()) {
            content.insert(
                String::from_str(STATUS_KEY),
                Json::Str(config.workflow.default_status.clone()),
            );
        }
        let types = &config.task_types.types;
        let n = types.len();
        proof {
            let keys = types.keys_view();
            strmap::lemma_ascending_distinct(keys);
            keys.unique_seq_to_set();
        }
        let deny = match config.workflow.untyped_tasks {
            UntypedTasks::Deny => true,
            _ => false,
        };
        if deny && n == 1 {
            content.insert(String::from_str(TASK_TYPE_KEY), Json::Str(types.key_at(0).clone()));
        }
    }
    assert(content@ =~= start_of(*config, mode));
    content
}

fn overlay(base: &mut StrMap<Json>, over: &StrMap<Json>)
    ensures
        final(base)@ == old(base)@.union_prefer_right(over@),
{
    let n = over.len();
    let ghost keys = over.keys_view();
    let ghost before = base@;
    let mut i: usize = 0;
    proof {
        strmap::lemma_prefix(over@, keys, 0);
        assert(base@ =~= before.union_prefer_right(strmap::prefix(over@, keys, 0)));
    }
    while i < n
        invariant
            i <= n,
            n == keys.len(),
            keys == over.keys_view(),
            strmap::ascending(keys),
            keys.to_set() == over@.dom(),
            base@ == before.union_prefer_right(strmap::prefix(over@, keys, i as nat)),
        decreases n - i,
    {
        proof {
            strmap::lemma_prefix(over@, keys, i as nat);
        }
        base.insert(over.key_at(i).clone(), over.value_at(i).copy());
        assert(base@ =~= before.union_prefer_right(strmap::prefix(over@, keys, i as nat + 1)));
        i += 1;
    }
    proof {
        strmap::lemma_prefix(over@, keys, n as nat);
    }
}

fn blank_fields(names: &StrSet) -> (r: StrMap<Json>)
    ensures
        r@ == blanks(names@),
{
    let n = names.len();
    let ghost members = names.members();
    let mut out: StrMap<Json> = StrMap::new();
    let mut i: usize = 0;
    assert(members.take(0) =~= Seq::empty());
    assert(out@ =~= blanks(members.take(0).to_set()));
    while i < n
        invariant
            i <= n,
            n == members.len(),
            members == names.members(),
            out@ == blanks(members.take(i as int).to_set()),
        decreases n - i,
    {
        let blank = String::new();
        assert(blank@ =~= Seq::<char>::empty());
        out.insert(names.at(i).clone(), Json::Str(blank));
        proof {
            let shorter = members.take(i as int).to_set();
            let longer = members.take(i as int + 1).to_set();
            assert(longer =~= shorter.insert(members[i as int])) by {
                assert forall|k: Seq<char>| #[trigger]
                    longer.contains(k) <==> shorter.insert(members[i as int]).contains(k) by {
                    strmap::lemma_take_one_more(members, i as int, k);
                }
            }
            assert(out@ =~= blanks(longer));
        }
        i += 1;
    }
    assert(members.take(n as int) =~= members);
    out
}

/// Builds the form. `stamps` holds the defaults that the schema has for the
/// task, and `editable` the names of the fields that may be set, both under
/// their stored names.
pub fn build_template(
    config: &Config,
    mode: EditMode,
    stored: &StrMap<Json>,
    stamps: &StrMap<Json>,
    editable: &StrSet,
) -> (r: StrMap<Json>)
    ensures
        r@ == template_of(*config, mode, stored@, stamps@, editable@),
{
    let mut content = start_fields(config, mode);
    overlay(&mut content, stamps);
    overlay(&mut content, stored);
    read::rename_fields(&mut content, &config.workflow);
    let mut out = blank_fields(editable);
    read::rename_fields(&mut out, &config.workflow);
    overlay(&mut out, &content);
    out
}

/// Why a form cannot be opened.
pub open spec fn refusal(s: StateV, id: Seq<char>, create: bool) -> Option<Seq<char>> {
    if s.contains_key(id) && create {
        Some("task `"@ + id + "` already exists"@)
    } else if !s.contains_key(id) && !create {
        Some("no task `"@ + id + "`"@)
    } else {
        None
    }
}

/// The drafts of the write that a payload means.
pub open spec fn drafts_of(
    mode: EditMode,
    id: Seq<char>,
    config: Config,
    payload: FieldsV,
    stamps: FieldsV,
    at: Timestamp,
) -> Seq<EventV> {
    match mode {
        EditMode::Update => seq![model::draft(OpType::Update, id, payload, at)],
        EditMode::Create => crate::write::creation(config, id, payload, stamps, at),
    }
}

/// What a saved form means, or why it is refused.
pub open spec fn previewed(
    form: EditForm,
    edited: FieldsV,
    config: Config,
    stamps: FieldsV,
    at: Timestamp,
) -> Result<PreviewV, Seq<char>> {
    if edited == Map::<Seq<char>, JsonV>::empty() {
        Ok(PreviewV::Empty)
    } else {
        match crate::write::canonical(
            payload_of(form.stored@, form.template@, edited),
            config.workflow.status_field@,
            config.workflow.type_field@,
        ) {
            Err(m) => Err(m),
            Ok(set) => {
                let drafts = drafts_of(form.mode, form.id@, config, set, stamps, at);
                if set == Map::<Seq<char>, JsonV>::empty() {
                    Ok(PreviewV::Ready(set, Seq::empty()))
                } else {
                    match crate::write::objection(form.snapshot@, drafts, config.workflow.done_status@) {
                        Some(m) => Err(m),
                        None => Ok(
                            PreviewV::Ready(
                                set,
                                if form.mode == EditMode::Create && form.snapshot@ == Map::<
                                    Seq<char>,
                                    model::TaskV,
                                >::empty() {
                                    Seq::empty()
                                } else {
                                    fields::introduced(
                                        drafts,
                                        fields::known_names(config, form.snapshot@),
                                    )
                                },
                            ),
                        ),
                    }
                }
            },
        }
    }
}

/// The look at a form foretells the write: where nothing was written since the
/// form was opened, the one refuses what the other refuses, with the same words,
/// and names new fields exactly where the write wants them allowed.
pub proof fn previews_foretell_the_write(
    form: EditForm,
    store: Store,
    edited: FieldsV,
    stamps: FieldsV,
    at: Timestamp,
    set: FieldsV,
)
    requires
        form.snapshot@ == store.state(),
        edited != Map::<Seq<char>, JsonV>::empty(),
        crate::write::canonical(
            payload_of(form.stored@, form.template@, edited),
            store.config.workflow.status_field@,
            store.config.workflow.type_field@,
        ) == Ok::<FieldsV, Seq<char>>(set),
        set != Map::<Seq<char>, JsonV>::empty(),
    ensures
        ({
            let drafts = drafts_of(form.mode, form.id@, store.config, set, stamps, at);
            match crate::write::objection(store.state(), drafts, store.done()) {
                Some(m) => {
                    &&& previewed(form, edited, store.config, stamps, at) == Err::<
                        PreviewV,
                        Seq<char>,
                    >(m)
                    &&& forall|allow: bool| #[trigger]
                        crate::write::field_refusal(store, drafts, allow) == Some(
                            (ExitCode::Error, m),
                        )
                },
                None => {
                    &&& previewed(form, edited, store.config, stamps, at) matches Ok(
                        PreviewV::Ready(given, new),
                    ) && given == set && (new.len() > 0 <==> fields::names_refused(
                        drafts,
                        store.state(),
                        store.config,
                        false,
                    ))
                },
            }
        }),
{
    let drafts = drafts_of(form.mode, form.id@, store.config, set, stamps, at);
    assert(drafts.drop_last() =~= Seq::empty());
}

impl EditForm {
    /// Opens the form of `id`: of an existing task, or of a new one if
    /// `create_missing`, which then may not exist yet.
    pub fn open(
        store: &Store,
        id: &str,
        create_missing: bool,
        stamps: &StrMap<Json>,
        editable: &StrSet,
    ) -> (r: Result<Self, String>)
        ensures
            ({
                let s = store.state();
                let mode = if create_missing { EditMode::Create } else { EditMode::Update };
                let stored: FieldsV = if create_missing { Map::empty() } else {
                    s[id@].custom_fields
                };
                match r {
                    Ok(f) => {
                        &&& refusal(s, id@, create_missing) is None
                        &&& f.id@ == id@
                        &&& f.mode == mode
                        &&& f.snapshot@ == s
                        &&& f.stored@ == read::displayed(
                            stored,
                            store.config.workflow.status_field@,
                            store.config.workflow.type_field@,
                        )
                        &&& f.template@ == template_of(
                            store.config,
                            mode,
                            stored,
                            stamps@,
                            editable@,
                        )
                    },
                    Err(m) => refusal(s, id@, create_missing) == Some(m@),
                }
            }),
    {
        let config = &store.config;
        let snapshot = store::materialize(config, &store.baseline, &store.mutations);
        let fields = match snapshot.get(id) {
            Some(task) => {
                if create_missing {
                    return Err(text::cat3("task `", id, "` already exists"));
                }
                task.custom_fields.copy()
            },
            None => {
                if !create_missing {
                    return Err(text::cat3("no task `", id, "`"));
                }
                StrMap::new()
            },
        };
        let mode = if create_missing { EditMode::Create } else { EditMode::Update };
        let template = build_template(config, mode, &fields, stamps, editable);
        let mut stored = fields;
        read::rename_fields(&mut stored, &config.workflow);
        Ok(EditForm { template, stored, snapshot, mode, id: String::from_str(id) })
    }

    /// Whether the form creates or updates.
    pub fn mode(&self) -> (r: EditMode)
        ensures
            r == self.mode,
    {
        self.mode
    }

    /// What the saved form writes, under display names.
    pub fn payload(&self, edited: &StrMap<Json>) -> (r: StrMap<Json>)
        ensures
            r@ == payload_of(self.stored@, self.template@, edited@),
    {
        let ghost want = payload_of(self.stored@, self.template@, edited@);
        let mut set: StrMap<Json> = StrMap::new();
        let n = edited.len();
        let ghost keys = edited.keys_view();
        let mut i: usize = 0;
        assert(keys.take(0) =~= Seq::<Seq<char>>::empty());
        while i < n
            invariant
                i <= n,
                n == keys.len(),
                keys == edited.keys_view(),
                want == payload_of(self.stored@, self.template@, edited@),
                forall|k: Seq<char>| #[trigger]
                    set@.contains_key(k) <==> keys.take(i as int).contains(k) && want.contains_key(
                        k,
                    ),
                forall|k: Seq<char>| #[trigger] set@.contains_key(k) ==> set@[k] == want[k],
            decreases n - i,
        {
            let key = edited.key_at(i);
            let value = edited.value_at(i);
            let ghost had = set@;
            let differs = match self.stored.get(key.as_str()) {
                Some(v) => !json::same_json(v, value),
                None => match self.template.get(key.as_str()) {
                    Some(v) => !json::same_json(v, value),
                    None => true,
                },
            };
            if differs {
                set.insert(key.clone(), value.copy());
            }
            proof {
                assert(want.contains_key(key@) == differs);
                assert forall|k: Seq<char>| #[trigger]
                    set@.contains_key(k) <==> keys.take(i as int + 1).contains(k)
                        && want.contains_key(k) by {
                    strmap::lemma_take_one_more(keys, i as int, k);
                    assert(had.contains_key(k) <==> keys.take(i as int).contains(k)
                        && want.contains_key(k));
                }
            }
            i += 1;
        }
        proof {
            assert(keys.take(n as int) =~= keys);
            assert forall|k: Seq<char>| #[trigger] keys.contains(k) <==> edited@.contains_key(k) by {
                assert(keys.to_set().contains(k) == keys.contains(k));
            }
        }
        let m = self.stored.len();
        let ghost held = self.stored.keys_view();
        let mut j: usize = 0;
        assert(held.take(0) =~= Seq::<Seq<char>>::empty());
        while j < m
            invariant
                j <= m,
                m == held.len(),
                held == self.stored.keys_view(),
                want == payload_of(self.stored@, self.template@, edited@),
                forall|k: Seq<char>| #[trigger]
                    set@.contains_key(k) <==> want.contains_key(k) && (edited@.contains_key(k)
                        || held.take(j as int).contains(k)),
                forall|k: Seq<char>| #[trigger] set@.contains_key(k) ==> set@[k] == want[k],
            decreases m - j,
        {
            let key = self.stored.key_at(j);
            let ghost had = set@;
            if !edited.contains_key(key.as_str()) {
                set.insert(key.clone(), Json::Null);
            }
            proof {
                assert forall|k: Seq<char>| #[trigger]
                    set@.contains_key(k) <==> want.contains_key(k) && (edited@.contains_key(k)
                        || held.take(j as int + 1).contains(k)) by {
                    strmap::lemma_take_one_more(held, j as int, k);
                    assert(had.contains_key(k) <==> want.contains_key(k) && (edited@.contains_key(k)
                        || held.take(j as int).contains(k)));
                }
            }
            j += 1;
        }
        proof {
            assert(held.take(m as int) =~= held);
            assert forall|k: Seq<char>| #[trigger] set@.contains_key(k) <==> want.contains_key(k) by {
                assert(held.to_set().contains(k) == held.contains(k));
            }
            assert(set@ =~= want);
        }
        set
    }

    /// What the saved form means, or why it is refused: a field is given under
    /// two names, or the write cannot happen to the tasks as they were when the
    /// form was opened.
    pub fn preview(
        &self,
        edited: &StrMap<Json>,
        config: &Config,
        stamps: &StrMap<Json>,
        at: Timestamp,
    ) -> (r: Result<Preview, String>)
        ensures
            match r {
                Ok(p) => previewed(*self, edited@, *config, stamps@, at) == Ok::<
                    PreviewV,
                    Seq<char>,
                >(p@),
                Err(m) => previewed(*self, edited@, *config, stamps@, at) == Err::<
                    PreviewV,
                    Seq<char>,
                >(m@),
            },
    {
        if edited.is_empty() {
            return Ok(Preview::Empty);
        }
        let mut set = self.payload(edited);
        if let Err(m) = crate::write::canonicalize_fields(&mut set, &config.workflow) {
            return Err(m);
        }
        if set.is_empty() {
            let new_fields: Vec<String> = Vec::new();
            assert(new_fields.deep_view() =~= Seq::<Seq<char>>::empty());
            return Ok(Preview::Ready { set, new_fields });
        }
        let drafts = self.draft_events(config, set.copy(), stamps, at);
        match crate::write::vet_events(
            self.snapshot.copy(),
            &drafts,
            config.workflow.done_status.as_str(),
        ) {
            Err(m) => Err(m),
            Ok(_) => {
                let known = fields::known_fields(config, &self.snapshot);
                let new_fields = self.unconfirmed(fields::introduced_fields(&drafts, &known));
                Ok(Preview::Ready { set, new_fields })
            },
        }
    }

    /// The drafts of the write that a payload means.
    pub fn draft_events(
        &self,
        config: &Config,
        payload: StrMap<Json>,
        stamps: &StrMap<Json>,
        at: Timestamp,
    ) -> (r: Vec<MutationEvent>)
        ensures
            r.deep_view() == drafts_of(self.mode, self.id@, *config, payload@, stamps@, at),
    {
        let draft = match self.mode {
            EditMode::Update => MutationEvent::new(OpType::Update, self.id.as_str(), payload, at),
            EditMode::Create => crate::write::create_draft(config, self.id.as_str(), payload, stamps, at),
        };
        let mut out: Vec<MutationEvent> = Vec::new();
        let ghost d = draft@;
        out.push(draft);
        assert(out.deep_view() =~= seq![d]);
        out
    }

    /// Writes a previewed payload to the store, where everything is looked at
    /// again: the form was filled in outside of it.
    pub fn apply(
        &self,
        store: &mut Store,
        payload: StrMap<Json>,
        stamps: &StrMap<Json>,
        allow_new_fields: bool,
        at: Timestamp,
    ) -> (r: Result<WriteOutcome, DynError>)
        ensures
            crate::write::field_effect(
                *old(store),
                *final(store),
                drafts_of(self.mode, self.id@, old(store).config, payload@, stamps@, at),
                allow_new_fields,
                r,
            ),
    {
        let drafts = self.draft_events(&store.config, payload, stamps, at);
        crate::write::update(store, drafts, allow_new_fields)
    }

    /// The new names that need a confirmation: none for the first task of a
    /// store, which sets the vocabulary.
    pub fn unconfirmed(&self, introduced: Vec<String>) -> (r: Vec<String>)
        ensures
            r.deep_view() == if self.mode == EditMode::Create && self.snapshot@ == Map::<
                Seq<char>,
                model::TaskV,
            >::empty() {
                Seq::empty()
            } else {
                introduced.deep_view()
            },
    {
        if self.mode == EditMode::Create && self.snapshot.is_empty() {
            let none: Vec<String> = Vec::new();
            assert(none.deep_view() =~= Seq::empty());
            none
        } else {
            introduced
        }
    }
}

/// The line before the editor opens.
pub open spec fn opening_text(mode: EditMode, id: Seq<char>) -> Seq<char> {
    match mode {
        EditMode::Update => "editing `"@ + id
            + "` - save to apply, delete a field to unset it, save unchanged for no-op."@,
        EditMode::Create => "creating `"@ + id
            + "` - save fields to create it, save empty or unchanged to discard."@,
    }
}

/// The line before the editor opens: what a save will do.
pub fn opening(mode: EditMode, id: &str) -> (r: String)
    ensures
        r@ == opening_text(mode, id@),
{
    match mode {
        EditMode::Update => text::cat3(
            "editing `",
            id,
            "` - save to apply, delete a field to unset it, save unchanged for no-op.",
        ),
        EditMode::Create => text::cat3(
            "creating `",
            id,
            "` - save fields to create it, save empty or unchanged to discard.",
        ),
    }
}

/// What a discard says of the task.
pub open spec fn untouched_text(mode: EditMode, id: Seq<char>) -> Seq<char> {
    match mode {
        EditMode::Update => "`"@ + id + "` left unchanged."@,
        EditMode::Create => "`"@ + id + "` not created."@,
    }
}

/// What a discard says of the task.
pub fn untouched(mode: EditMode, id: &str) -> (r: String)
    ensures
        r@ == untouched_text(mode, id@),
{
    match mode {
        EditMode::Update => text::cat3("`", id, "` left unchanged."),
        EditMode::Create => text::cat3("`", id, "` not created."),
    }
}

/// The line for a save that writes nothing.
pub open spec fn nothing_text(mode: EditMode, id: Seq<char>) -> Seq<char> {
    (match mode {
        EditMode::Update => "No changes"@,
        EditMode::Create => "No fields saved"@,
    }) + " - "@ + untouched_text(mode, id)
}

/// The line for a save that writes nothing.
pub fn nothing_written(mode: EditMode, id: &str) -> (r: String)
    ensures
        r@ == nothing_text(mode, id@),
{
    let reason = match mode {
        EditMode::Update => "No changes",
        EditMode::Create => "No fields saved",
    };
    text::cat3(reason, " - ", untouched(mode, id).as_str())
}

/// `c` where it can stand in a file name, else an underscore.
pub open spec fn file_char(c: char) -> char {
    if ('a' <= c <= 'z') || ('A' <= c <= 'Z') || ('0' <= c <= '9') || c == '-' || c == '_' {
        c
    } else {
        '_'
    }
}

/// `id` in a form that can stand in a file name.
pub fn file_name(id: &str) -> (r: String)
    ensures
        r@ == id@.map_values(|c: char| file_char(c)),
{
    let v = text::chars_of(id);
    let mut out = String::new();
    let mut i: usize = 0;
    while i < v.len()
        invariant
            i <= v.len(),
            v@ == id@,
            out@.len() == i,
            forall|k: int| 0 <= k < i ==> #[trigger] out@[k] == file_char(v@[k]),
        decreases v.len() - i,
    {
        let c = v[i];
        if ('a' <= c && c <= 'z') || ('A' <= c && c <= 'Z') || ('0' <= c && c <= '9') || c == '-'
            || c == '_' {
            out.push(c);
        } else {
            out.push('_');
        }
        i += 1;
    }
    assert(out@ =~= id@.map_values(|c: char| file_char(c)));
    out
}

/// What came of a saved form.
pub enum Saved {
    /// There is nothing in it.
    Empty,
    /// It can be written; these field names are used by no task yet.
    Ready(Vec<String>),
    /// It cannot be read, or what it says is refused.
    Refused(String),
}

/// What is done about a saved form, or about the answer to a question on it.
pub enum EditStep {
    /// Open the form again, as it was saved.
    Reopen,
    /// Say `note` and ask `question`; a yes writes the form with its new fields,
    /// a no opens it again.
    AskNames { note: String, question: &'static str },
    /// Say `note` and ask `question`; a yes opens the form again, a no gives it
    /// up.
    AskAgain { note: String, question: &'static str },
    /// Say this and end.
    End(String),
    /// Write what the form says; whether field names that no task uses yet are
    /// let in.
    Write { new_fields: bool },
}

/// The question whether new field names are meant.
pub const ADD_NAMES: &'static str = "Add them as new fields? (no = re-edit to fix a typo)";

/// The question whether to go on with a form that is refused.
pub const EDIT_AGAIN: &'static str = "Re-edit to fix it? (no = discard your changes)";

/// What is done about a saved form: an empty one is discarded, one without new
/// field names is written, and otherwise there is a question.
pub fn after_save(mode: EditMode, id: &str, saved: &Saved) -> (r: EditStep)
    ensures
        match *saved {
            Saved::Empty => r matches EditStep::End(m) && m@ == "Empty file - discarded; "@
                + untouched_text(mode, id@),
            Saved::Ready(names) => if names.len() == 0 {
                r matches EditStep::Write { new_fields } && !new_fields
            } else {
                r matches EditStep::AskNames { note, question } && note@
                    == "note: this adds field name(s) no task uses yet: "@ + text::joined(
                    names.deep_view(),
                    ", "@,
                ) && question@ == ADD_NAMES@
            },
            Saved::Refused(why) => r matches EditStep::AskAgain { note, question } && note@
                == "error: "@ + why@ && question@ == EDIT_AGAIN@,
        },
{
    match saved {
        Saved::Empty => EditStep::End(
            text::cat2("Empty file - discarded; ", untouched(mode, id).as_str()),
        ),
        Saved::Ready(names) => if names.len() == 0 {
            EditStep::Write { new_fields: false }
        } else {
            let note = text::cat2(
                "note: this adds field name(s) no task uses yet: ",
                text::join(names, ", ").as_str(),
            );
            EditStep::AskNames { note, question: ADD_NAMES }
        },
        Saved::Refused(why) => EditStep::AskAgain {
            note: text::cat2("error: ", why.as_str()),
            question: EDIT_AGAIN,
        },
    }
}

/// What is done once a question on the form is answered. A step that asks
/// nothing stays as it is.
pub fn after_answer(mode: EditMode, id: &str, asked: EditStep, yes: bool) -> (r: EditStep)
    ensures
        match asked {
            EditStep::AskNames { .. } => if yes {
                r matches EditStep::Write { new_fields } && new_fields
            } else {
                r is Reopen
            },
            EditStep::AskAgain { .. } => if yes {
                r is Reopen
            } else {
                r matches EditStep::End(m) && m@ == "Discarded; "@ + untouched_text(mode, id@)
            },
            _ => r == asked,
        },
{
    match asked {
        EditStep::AskNames { .. } => if yes {
            EditStep::Write { new_fields: true }
        } else {
            EditStep::Reopen
        },
        EditStep::AskAgain { .. } => if yes {
            EditStep::Reopen
        } else {
            EditStep::End(text::cat2("Discarded; ", untouched(mode, id).as_str()))
        },
        other => other,
    }
}

/// What is said once a form is written: the number of the last event, or that
/// there was nothing to write.
pub fn written(mode: EditMode, id: &str, last: Option<u64>) -> (r: String)
    ensures
        r@ == match last {
            None => nothing_text(mode, id@),
            Some(seq) => "[seq:"@ + text::decimal(seq as nat) + match mode {
                EditMode::Update => "] Updated task `"@,
                EditMode::Create => "] Created task `"@,
            } + id@ + "`"@,
        },
{
    match last {
        None => nothing_written(mode, id),
        Some(seq) => text::cat5(
            "[seq:",
            text::decimal_text(seq).as_str(),
            match mode {
                EditMode::Update => "] Updated task `",
                EditMode::Create => "] Created task `",
            },
            id,
            "`",
        ),
    }
}

/// Saving a form brings the task to what the form says: a field that the form
/// shows has that value afterwards, unless it is a suggestion that was left as
/// it was, which the task goes on without; and a field that was deleted from the
/// form is gone.
pub proof fn forms_say_what_is_stored(
    stored: FieldsV,
    template: FieldsV,
    edited: FieldsV,
    k: Seq<char>,
)
    requires
        edited.contains_key(k) ==> !(edited[k] is Null),
    ensures
        ({
            let after = crate::engine::set_fields(stored, payload_of(stored, template, edited));
            let kept = !stored.contains_key(k) && template.contains_key(k) && json::json_same(
                template[k],
                edited[k],
            );
            &&& !edited.contains_key(k) ==> !after.contains_key(k)
            &&& edited.contains_key(k) && !kept ==> after.contains_key(k) && json::json_same(
                after[k],
                edited[k],
            )
            &&& edited.contains_key(k) && kept ==> !after.contains_key(k)
        }),
{
    if edited.contains_key(k) {
        json::json_same_reflexive(edited[k]);
    }
}

/// What the form of a task shows under a name other than status and type: the
/// stored value if there is one, else a declared default, else a blank if it can
/// be edited; and nothing else.
pub proof fn forms_show_fields(
    config: Config,
    mode: EditMode,
    stored: FieldsV,
    stamps: FieldsV,
    editable: Set<Seq<char>>,
    k: Seq<char>,
)
    requires
        k != STATUS_KEY@,
        k != TASK_TYPE_KEY@,
        k != config.workflow.status_field@,
        k != config.workflow.type_field@,
    ensures
        ({
            let shown = template_of(config, mode, stored, stamps, editable);
            &&& stored.contains_key(k) ==> shown.contains_key(k) && shown[k] == stored[k]
            &&& !stored.contains_key(k) && stamps.contains_key(k) ==> shown.contains_key(k)
                && shown[k] == stamps[k]
            &&& !stored.contains_key(k) && !stamps.contains_key(k) ==> (shown.contains_key(k)
                <==> editable.contains(k))
            &&& !stored.contains_key(k) && !stamps.contains_key(k) && editable.contains(k)
                ==> shown[k] == JsonV::Str(Seq::empty())
        }),
{
}

/// The form of a new task starts with the configured status, if there is one; a
/// task that exists is shown with the status that it has.
pub proof fn forms_show_the_status(
    config: Config,
    stored: FieldsV,
    stamps: FieldsV,
    editable: Set<Seq<char>>,
)
    requires
        config.workflow.status_field@ == STATUS_KEY@,
        config.workflow.type_field@ == TASK_TYPE_KEY@,
        !stamps.contains_key(STATUS_KEY@),
    ensures
        ({
            let fresh = template_of(config, EditMode::Create, Map::empty(), stamps, editable);
            let start = config.workflow.default_status@;
            &&& start.len() > 0 ==> fresh.contains_key("status"@) && fresh["status"@] == JsonV::Str(
                start,
            )
            &&& start.len() == 0 && fresh.contains_key("status"@) ==> fresh["status"@] == JsonV::Str(
                Seq::empty(),
            )
        }),
        ({
            let known = template_of(config, EditMode::Update, stored, stamps, editable);
            &&& stored.contains_key("status"@) ==> known.contains_key("status"@)
                && known["status"@] == stored["status"@]
            &&& !stored.contains_key("status"@) && known.contains_key("status"@)
                ==> known["status"@] == JsonV::Str(Seq::empty())
        }),
{
    reveal_strlit("status");
    reveal_strlit("task_type");
    assert("status"@.len() == 6 && "task_type"@.len() == 9);
}

/// The name of a form's file holds letters, digits, `-` and `_` only; an id of
/// such characters is its own name.
pub proof fn file_names_are_plain(id: &str, r: String, i: int)
    requires
        call_ensures(file_name, (id,), r),
        0 <= i < id@.len(),
    ensures
        r@.len() == id@.len(),
        ({
            let c = r@[i];
            let plain = |c: char|
                'a' <= c <= 'z' || 'A' <= c <= 'Z' || '0' <= c <= '9' || c == '-' || c == '_';
            &&& plain(c)
            &&& plain(id@[i]) ==> c == id@[i]
            &&& !plain(id@[i]) ==> c == '_'
        }),
{
}

/// A form for a task that is there is refused where a new one was asked for, and
/// a form for one that is not where it was not.
pub proof fn forms_open_on_what_is_there(s: StateV, id: Seq<char>, create: bool)
    ensures
        refusal(s, id, create) is None <==> s.contains_key(id) != create,
{
}

/// A form with names that no task uses yet is written only after a yes, and then
/// with these names let in; a no opens it again. One without such names is written
/// at once, and lets none in. An empty form and a refused one are not written.
pub proof fn new_names_need_a_yes(
    mode: EditMode,
    id: &str,
    saved: Saved,
    asked: EditStep,
    yes: EditStep,
    no: EditStep,
)
    requires
        call_ensures(after_save, (mode, id, &saved), asked),
        call_ensures(after_answer, (mode, id, asked, true), yes),
        call_ensures(after_answer, (mode, id, asked, false), no),
    ensures
        saved is Ready && saved->Ready_0.len() > 0 ==> !(asked is Write) && !(asked is End)
            && yes == (EditStep::Write { new_fields: true }) && no is Reopen,
        saved is Ready && saved->Ready_0.len() == 0 ==> asked == (EditStep::Write {
            new_fields: false,
        }),
        saved is Refused ==> !(asked is Write) && yes is Reopen && no is End,
        saved is Empty ==> asked is End && yes == asked && no == asked,
{
}

/// What is said of a form that changes nothing: that the task is left as it is, or
/// that it is not created.
pub proof fn unchanged_forms_say_so(id: Seq<char>)
    ensures
        nothing_text(EditMode::Update, id) == "No changes"@ + " - "@ + ("`"@ + id
            + "` left unchanged."@),
        nothing_text(EditMode::Create, id) == "No fields saved"@ + " - "@ + ("`"@ + id
            + "` not created."@),
        opening_text(EditMode::Update, id) == "editing `"@ + id
            + "` - save to apply, delete a field to unset it, save unchanged for no-op."@,
        opening_text(EditMode::Create, id) == "creating `"@ + id
            + "` - save fields to create it, save empty or unchanged to discard."@,
{
}

} // verus!
