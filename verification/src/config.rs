//! The configuration of a store.

use crate::graph;
use crate::json::{self, Json, JsonV};
use crate::model::{self, StateV, TaskState, DEPS_KEY, ID_KEY, STATUS_KEY, TASK_TYPE_KEY};
use crate::pattern;
use crate::reach;
use crate::strmap::{self, Data, StrMap, StrSet};
use crate::text;
use vstd::prelude::*;

verus! {

/// The least number of events that compaction may be told to keep.
pub const MIN_KEEP_EVENTS: usize = 300;

/// How much history compaction leaves in the log.
pub struct CompactionConfig {
    /// How many of the latest events stay.
    pub keep_events: usize,
    /// Events of this many days stay too; 0 turns the window off.
    pub keep_days: u64,
}

/// What a task without a type means while types are declared.
#[derive(Clone, Copy, Debug, PartialEq, Eq, Structural)]
pub enum UntypedTasks {
    Allow,
    Warn,
    Deny,
}

/// What a task's fields mean.
pub struct WorkflowConfig {
    /// The name the status field is shown under.
    pub status_field: String,
    /// The status of a finished task.
    pub done_status: String,
    /// The status a new task gets, if any.
    pub default_status: String,
    /// The name the type field is shown under.
    pub type_field: String,
    /// Whether reads warn of tasks that do not fit their type.
    pub warn_nonconforming: bool,
    pub untyped_tasks: UntypedTasks,
}

/// What a merge does when two branches contradict each other.
#[derive(Clone, Copy, Debug, PartialEq, Eq, Structural)]
pub enum OnConflict {
    /// Stop and let a person decide.
    Surface,
    /// Keep what was written last.
    Latest,
    /// Keep the value of the branch merged into.
    Ours,
    /// Keep the value of the branch merged in.
    Theirs,
}

/// How branches are merged.
pub struct MergeConfig {
    pub on_conflict: OnConflict,
}

/// How tasks are laid out for people.
#[derive(Clone, Copy, Debug, PartialEq, Eq, Structural)]
pub enum Layout {
    /// One task per row.
    Table,
    /// One field per line.
    List,
}

/// How lists of tasks are shown.
pub struct DisplayConfig {
    pub columns: Vec<String>,
    /// The width cells are cut to; 0 leaves them whole.
    pub max_width: usize,
    pub list_layout: Layout,
    pub show_layout: Layout,
    /// Widths of single columns, in place of `max_width`.
    pub column_max_width: StrMap<usize>,
    /// The column rows are sorted by.
    pub sort: String,
}

/// The names of the computed time columns; an empty name turns one off.
pub struct TimestampConfig {
    pub create_time: String,
    pub update_time: String,
    pub close_time: String,
}

/// What a relationship type does to the blocker graph.
#[derive(Clone, Copy, Debug, PartialEq, Eq, Structural)]
pub enum RelKind {
    /// The target has to be done first.
    Blocker,
    /// The target is a subtask, and has to be done first.
    Hierarchy,
    /// No effect.
    Info,
}

/// One relationship type.
pub struct RelationshipDef {
    pub kind: RelKind,
    /// The name of the edge seen from its target; empty if it has none, the
    /// type's own name if the edge reads the same both ways.
    pub inverse: String,
}

/// The model of a [`RelationshipDef`].
pub struct RelationshipV {
    pub kind: RelKind,
    pub inverse: Seq<char>,
}

impl DeepView for RelationshipDef {
    type V = RelationshipV;

    open spec fn deep_view(&self) -> RelationshipV {
        RelationshipV { kind: self.kind, inverse: self.inverse@ }
    }
}

/// The declared relationship types, by name.
pub struct RelationshipConfig {
    pub types: StrMap<RelationshipDef>,
}

/// The kind of value a declared field holds.
#[derive(Debug)]
pub enum FieldKind {
    String,
    Bool,
    Int,
    Uint,
    Float,
    Datetime,
    Enum,
    Any,
    Array(Box<FieldKind>),
    SetOf(Box<FieldKind>),
}

/// One declared field: its kind alone, or with constraints.
pub enum FieldSchema {
    Short(String),
    Full(Box<FieldSpec>),
}

/// The long form of a declared field.
pub struct FieldSpec {
    pub kind: String,
    /// The values of an enum kind.
    pub values: Vec<String>,
    /// What each value of an enum may change into.
    pub transitions: StrMap<Vec<String>>,
    pub required: bool,
    pub default: Option<Json>,
    pub min: Option<Json>,
    pub max: Option<Json>,
    pub pattern: Option<String>,
    pub min_len: Option<u64>,
    pub max_len: Option<u64>,
    pub min_items: Option<u64>,
    pub max_items: Option<u64>,
}

/// The model of a [`FieldSpec`].
pub struct FieldSpecV {
    pub kind: Seq<char>,
    pub values: Seq<Seq<char>>,
    pub transitions: Map<Seq<char>, Seq<Seq<char>>>,
    pub required: bool,
    pub default: Option<JsonV>,
    pub min: Option<JsonV>,
    pub max: Option<JsonV>,
    pub pattern: Option<Seq<char>>,
    pub min_len: Option<u64>,
    pub max_len: Option<u64>,
    pub min_items: Option<u64>,
    pub max_items: Option<u64>,
}

/// The model of a [`FieldSchema`].
pub enum FieldSchemaV {
    Short(Seq<char>),
    Full(FieldSpecV),
}

impl DeepView for FieldSpec {
    type V = FieldSpecV;

    open spec fn deep_view(&self) -> FieldSpecV {
        FieldSpecV {
            kind: self.kind@,
            values: self.values.deep_view(),
            transitions: self.transitions@,
            required: self.required,
            default: self.default.deep_view(),
            min: self.min.deep_view(),
            max: self.max.deep_view(),
            pattern: self.pattern.deep_view(),
            min_len: self.min_len,
            max_len: self.max_len,
            min_items: self.min_items,
            max_items: self.max_items,
        }
    }
}

impl DeepView for FieldSchema {
    type V = FieldSchemaV;

    open spec fn deep_view(&self) -> FieldSchemaV {
        match self {
            FieldSchema::Short(k) => FieldSchemaV::Short(k@),
            FieldSchema::Full(spec) => FieldSchemaV::Full(spec.deep_view()),
        }
    }
}

/// One declared task type.
pub struct TaskTypeDef {
    /// Whether its tasks may hold only declared fields.
    pub closed: bool,
    pub fields: StrMap<FieldSchema>,
}

/// The model of a [`TaskTypeDef`].
pub struct TaskTypeV {
    pub closed: bool,
    pub fields: Map<Seq<char>, FieldSchemaV>,
}

impl DeepView for TaskTypeDef {
    type V = TaskTypeV;

    open spec fn deep_view(&self) -> TaskTypeV {
        TaskTypeV { closed: self.closed, fields: self.fields@ }
    }
}

/// The declared task types, by name.
pub struct TaskTypesConfig {
    pub types: StrMap<TaskTypeDef>,
}

/// The configuration of a store.
pub struct Config {
    pub compaction: CompactionConfig,
    pub workflow: WorkflowConfig,
    pub merge: MergeConfig,
    pub display: DisplayConfig,
    pub timestamps: TimestampConfig,
    pub relationships: RelationshipConfig,
    pub task_types: TaskTypesConfig,
}

impl UntypedTasks {
    /// The name in the configuration file.
    pub open spec fn name(self) -> Seq<char> {
        match self {
            UntypedTasks::Allow => "allow"@,
            UntypedTasks::Warn => "warn"@,
            UntypedTasks::Deny => "deny"@,
        }
    }

    /// The name in the configuration file.
    pub fn as_str(self) -> (r: &'static str)
        ensures
            r@ == self.name(),
    {
        match self {
            UntypedTasks::Allow => "allow",
            UntypedTasks::Warn => "warn",
            UntypedTasks::Deny => "deny",
        }
    }
}

impl OnConflict {
    /// The name in the configuration file.
    pub open spec fn name(self) -> Seq<char> {
        match self {
            OnConflict::Surface => "surface"@,
            OnConflict::Latest => "latest"@,
            OnConflict::Ours => "ours"@,
            OnConflict::Theirs => "theirs"@,
        }
    }

    /// The name in the configuration file.
    pub fn as_str(self) -> (r: &'static str)
        ensures
            r@ == self.name(),
    {
        match self {
            OnConflict::Surface => "surface",
            OnConflict::Latest => "latest",
            OnConflict::Ours => "ours",
            OnConflict::Theirs => "theirs",
        }
    }
}

impl Layout {
    /// The name in the configuration file.
    pub open spec fn name(self) -> Seq<char> {
        match self {
            Layout::Table => "table"@,
            Layout::List => "list"@,
        }
    }

    /// The name in the configuration file.
    pub fn as_str(self) -> (r: &'static str)
        ensures
            r@ == self.name(),
    {
        match self {
            Layout::Table => "table",
            Layout::List => "list",
        }
    }
}

impl RelKind {
    /// The name in the configuration file.
    pub open spec fn name(self) -> Seq<char> {
        match self {
            RelKind::Blocker => "blocker"@,
            RelKind::Hierarchy => "hierarchy"@,
            RelKind::Info => "info"@,
        }
    }

    /// The name in the configuration file.
    pub fn as_str(self) -> (r: &'static str)
        ensures
            r@ == self.name(),
    {
        match self {
            RelKind::Blocker => "blocker",
            RelKind::Hierarchy => "hierarchy",
            RelKind::Info => "info",
        }
    }
}

impl Default for CompactionConfig {
    fn default() -> (r: Self)
        ensures
            r.keep_events == 5000,
            r.keep_days == 30,
    {
        CompactionConfig { keep_events: 5000, keep_days: 30 }
    }
}

impl Default for WorkflowConfig {
    fn default() -> (r: Self)
        ensures
            r.status_field@ == STATUS_KEY@,
            r.done_status@ == "closed"@,
            r.default_status@ == "todo"@,
            r.type_field@ == "type"@,
            r.warn_nonconforming,
            r.untyped_tasks == UntypedTasks::Deny,
    {
        WorkflowConfig {
            status_field: String::from_str(STATUS_KEY),
            done_status: String::from_str("closed"),
            default_status: String::from_str("todo"),
            type_field: String::from_str("type"),
            warn_nonconforming: true,
            untyped_tasks: UntypedTasks::Deny,
        }
    }
}

impl Default for MergeConfig {
    fn default() -> (r: Self)
        ensures
            r.on_conflict == OnConflict::Surface,
    {
        MergeConfig { on_conflict: OnConflict::Surface }
    }
}

impl Default for DisplayConfig {
    fn default() -> (r: Self)
        ensures
            r.columns.deep_view() == seq![ID_KEY@, "title"@, STATUS_KEY@, DEPS_KEY@],
            r.max_width == 40,
            r.list_layout == Layout::Table,
            r.show_layout == Layout::List,
            r.column_max_width@ == map!["title"@ => 80usize],
            r.sort@ == "create_time"@,
    {
        let mut columns: Vec<String> = Vec::new();
        columns.push(String::from_str(ID_KEY));
        columns.push(String::from_str("title"));
        columns.push(String::from_str(STATUS_KEY));
        columns.push(String::from_str(DEPS_KEY));
        assert(columns.deep_view() =~= seq![ID_KEY@, "title"@, STATUS_KEY@, DEPS_KEY@]);
        let mut column_max_width: StrMap<usize> = StrMap::new();
        column_max_width.insert(String::from_str("title"), 80);
        assert(column_max_width@ =~= map!["title"@ => 80usize]);
        DisplayConfig {
            columns,
            max_width: 40,
            list_layout: Layout::Table,
            show_layout: Layout::List,
            column_max_width,
            sort: String::from_str("create_time"),
        }
    }
}

impl Default for TimestampConfig {
    fn default() -> (r: Self)
        ensures
            r.create_time@ == "create_time"@,
            r.update_time@ == "update_time"@,
            r.close_time@ == "close_time"@,
    {
        TimestampConfig {
            create_time: String::from_str("create_time"),
            update_time: String::from_str("update_time"),
            close_time: String::from_str("close_time"),
        }
    }
}

fn relationship(kind: RelKind, inverse: &str) -> (r: RelationshipDef)
    ensures
        r.deep_view() == (RelationshipV { kind, inverse: inverse@ }),
{
    RelationshipDef { kind, inverse: String::from_str(inverse) }
}

impl Default for RelationshipConfig {
    fn default() -> (r: Self)
        ensures
            r.types@ == Map::<Seq<char>, RelationshipV>::empty().insert(
                "depends_on"@,
                RelationshipV { kind: RelKind::Blocker, inverse: "blocks"@ },
            ).insert(
                "has_subtask"@,
                RelationshipV { kind: RelKind::Hierarchy, inverse: "subtask_of"@ },
            ).insert(
                "relates_to"@,
                RelationshipV { kind: RelKind::Info, inverse: "relates_to"@ },
            ).insert("duplicates"@, RelationshipV { kind: RelKind::Info, inverse: ""@ }),
    {
        let mut types: StrMap<RelationshipDef> = StrMap::new();
        types.insert(String::from_str("depends_on"), relationship(RelKind::Blocker, "blocks"));
        types.insert(
            String::from_str("has_subtask"),
            relationship(RelKind::Hierarchy, "subtask_of"),
        );
        types.insert(String::from_str("relates_to"), relationship(RelKind::Info, "relates_to"));
        types.insert(String::from_str("duplicates"), relationship(RelKind::Info, ""));
        RelationshipConfig { types }
    }
}

impl Default for TaskTypesConfig {
    fn default() -> (r: Self)
        ensures
            r.types@ == Map::<Seq<char>, TaskTypeV>::empty(),
    {
        TaskTypesConfig { types: StrMap::new() }
    }
}

impl Default for Config {
    fn default() -> (r: Self)
        ensures
            call_ensures(CompactionConfig::default, (), r.compaction),
            call_ensures(WorkflowConfig::default, (), r.workflow),
            call_ensures(MergeConfig::default, (), r.merge),
            call_ensures(DisplayConfig::default, (), r.display),
            call_ensures(TimestampConfig::default, (), r.timestamps),
            call_ensures(RelationshipConfig::default, (), r.relationships),
            call_ensures(TaskTypesConfig::default, (), r.task_types),
    {
        Config {
            compaction: CompactionConfig::default(),
            workflow: WorkflowConfig::default(),
            merge: MergeConfig::default(),
            display: DisplayConfig::default(),
            timestamps: TimestampConfig::default(),
            relationships: RelationshipConfig::default(),
            task_types: TaskTypesConfig::default(),
        }
    }
}

/// The declared relationship types in the model.
pub type TypesV = Map<Seq<char>, RelationshipV>;

/// The types whose targets have to be done first.
pub open spec fn gating_types(types: TypesV) -> Set<Seq<char>> {
    Set::new(|n: Seq<char>| types.contains_key(n) && types[n].kind != RelKind::Info)
}

/// The types whose targets are subtasks.
pub open spec fn subtask_types(types: TypesV) -> Set<Seq<char>> {
    Set::new(|n: Seq<char>| types.contains_key(n) && types[n].kind == RelKind::Hierarchy)
}

impl RelationshipConfig {
    fn names_of(&self, with_blockers: bool) -> (r: StrSet)
        ensures
            r@ == if with_blockers {
                gating_types(self.types@)
            } else {
                subtask_types(self.types@)
            },
    {
        let n = self.types.len();
        let ghost keys = self.types.keys_view();
        let ghost types = self.types@;
        let ghost want = if with_blockers {
            gating_types(types)
        } else {
            subtask_types(types)
        };
        let mut out = StrSet::new();
        let mut i: usize = 0;
        while i < n
            invariant
                i <= n,
                n == keys.len(),
                keys == self.types.keys_view(),
                types == self.types@,
                want == (if with_blockers {
                    gating_types(types)
                } else {
                    subtask_types(types)
                }),
                forall|k: Seq<char>| #[trigger]
                    out@.contains(k) <==> keys.take(i as int).contains(k) && want.contains(k),
            decreases n - i,
        {
            let name = self.types.key_at(i);
            let def = self.types.value_at(i);
            let fits = match def.kind {
                RelKind::Blocker => with_blockers,
                RelKind::Hierarchy => true,
                RelKind::Info => false,
            };
            let ghost had = out@;
            if fits {
                let _ = out.insert(name.clone());
            }
            proof {
                assert forall|k: Seq<char>| #[trigger] out@.contains(k) <==> keys.take(
                    i as int + 1,
                ).contains(k) && want.contains(k) by {
                    strmap::lemma_take_one_more(keys, i as int, k);
                    assert(had.contains(k) <==> keys.take(i as int).contains(k) && want.contains(
                        k,
                    ));
                }
            }
            i += 1;
        }
        proof {
            assert(keys.take(n as int) =~= keys);
            assert forall|k: Seq<char>| out@.contains(k) <==> want.contains(k) by {
                assert(keys.to_set().contains(k) == keys.contains(k));
                assert(out@.contains(k) <==> keys.contains(k) && want.contains(k));
            }
            assert(out@ =~= want);
        }
        out
    }

    /// The types that gate readiness: blockers and hierarchies.
    pub fn blocker_types(&self) -> (r: StrSet)
        ensures
            r@ == gating_types(self.types@),
    {
        self.names_of(true)
    }

    /// The types whose targets are subtasks.
    pub fn hierarchy_types(&self) -> (r: StrSet)
        ensures
            r@ == subtask_types(self.types@),
    {
        self.names_of(false)
    }

    /// The first blocker type by name, if there is one.
    pub fn default_blocker(&self) -> (r: Option<&String>)
        ensures
            match r {
                Some(n) => {
                    &&& self.types@.contains_key(n@)
                    &&& self.types@[n@].kind == RelKind::Blocker
                    &&& forall|m: Seq<char>| #[trigger]
                        self.types@.contains_key(m) && self.types@[m].kind == RelKind::Blocker
                            ==> m == n@ || text::text_lt(n@, m)
                },
                None => forall|m: Seq<char>| #[trigger]
                    self.types@.contains_key(m) ==> self.types@[m].kind != RelKind::Blocker,
            },
    {
        let n = self.types.len();
        let ghost keys = self.types.keys_view();
        let mut i: usize = 0;
        while i < n
            invariant
                i <= n,
                n == keys.len(),
                keys == self.types.keys_view(),
                strmap::ascending(keys),
                keys.to_set() == self.types@.dom(),
                forall|k: int|
                    0 <= k < i ==> self.types@[#[trigger] keys[k]].kind != RelKind::Blocker,
            decreases n - i,
        {
            let name = self.types.key_at(i);
            if let RelKind::Blocker = self.types.value_at(i).kind {
                proof {
                    assert forall|m: Seq<char>| #[trigger]
                        self.types@.contains_key(m) && self.types@[m].kind
                            == RelKind::Blocker implies m == name@ || text::text_lt(name@, m) by {
                        assert(keys.to_set().contains(m));
                        let k = choose|k: int| 0 <= k < keys.len() && keys[k] == m;
                        if k > i {
                            assert(text::text_lt(keys[i as int], keys[k]));
                        }
                    }
                }
                return Some(name);
            }
            i += 1;
        }
        proof {
            assert forall|m: Seq<char>| #[trigger] self.types@.contains_key(m) implies self.types@[m].kind
                != RelKind::Blocker by {
                assert(keys.to_set().contains(m));
                let k = choose|k: int| 0 <= k < keys.len() && keys[k] == m;
                assert(self.types@[keys[k]].kind != RelKind::Blocker);
            }
        }
        None
    }
}

/// The scalar kind with a given name.
pub open spec fn scalar_kind(name: Seq<char>) -> Option<FieldKind> {
    if name == "string"@ {
        Some(FieldKind::String)
    } else if name == "bool"@ {
        Some(FieldKind::Bool)
    } else if name == "int"@ {
        Some(FieldKind::Int)
    } else if name == "uint"@ {
        Some(FieldKind::Uint)
    } else if name == "float"@ {
        Some(FieldKind::Float)
    } else if name == "datetime"@ {
        Some(FieldKind::Datetime)
    } else if name == "enum"@ {
        Some(FieldKind::Enum)
    } else {
        None
    }
}

/// What stands between `prefix` and a closing `>` in `s`, if `s` has both.
pub open spec fn inside(s: Seq<char>, prefix: Seq<char>) -> Option<Seq<char>> {
    if prefix.is_prefix_of(s) && s.len() > prefix.len() && s.last() == '>' {
        Some(s.subrange(prefix.len() as int, s.len() - 1))
    } else {
        None
    }
}

/// The answer to an element kind that is no scalar.
pub open spec fn element_message(element: Seq<char>, prefix: Seq<char>) -> Seq<char> {
    "`"@ + element + "` is not a valid element kind for `"@ + prefix
        + "...>` (expected a scalar: string|bool|int|uint|float|datetime|enum)"@
}

/// The answer to a text that names no kind.
pub open spec fn kind_message(spec: Seq<char>) -> Seq<char> {
    "unknown field kind `"@ + spec
        + "` (expected string|bool|int|uint|float|datetime|enum|any, or array<...>/set<...> of a scalar kind)"@
}

/// The kind a text names: `any`, a scalar, or a list or set of a scalar.
pub open spec fn kind_of(spec: Seq<char>) -> Result<FieldKind, Seq<char>> {
    if spec == "any"@ {
        Ok(FieldKind::Any)
    } else if scalar_kind(spec) is Some {
        Ok(scalar_kind(spec)->0)
    } else if inside(spec, "array<"@) is Some {
        let element = inside(spec, "array<"@)->0;
        match scalar_kind(element) {
            Some(k) => Ok(FieldKind::Array(Box::new(k))),
            None => Err(element_message(element, "array<"@)),
        }
    } else if inside(spec, "set<"@) is Some {
        let element = inside(spec, "set<"@)->0;
        match scalar_kind(element) {
            Some(k) => Ok(FieldKind::SetOf(Box::new(k))),
            None => Err(element_message(element, "set<"@)),
        }
    } else {
        Err(kind_message(spec))
    }
}

fn parse_scalar(name: &str) -> (r: Option<FieldKind>)
    ensures
        r == scalar_kind(name@),
{
    if text::same_text(name, "string") {
        Some(FieldKind::String)
    } else if text::same_text(name, "bool") {
        Some(FieldKind::Bool)
    } else if text::same_text(name, "int") {
        Some(FieldKind::Int)
    } else if text::same_text(name, "uint") {
        Some(FieldKind::Uint)
    } else if text::same_text(name, "float") {
        Some(FieldKind::Float)
    } else if text::same_text(name, "datetime") {
        Some(FieldKind::Datetime)
    } else if text::same_text(name, "enum") {
        Some(FieldKind::Enum)
    } else {
        None
    }
}

fn between(s: &str, prefix: &str) -> (r: Option<String>)
    ensures
        r.deep_view() == inside(s@, prefix@),
{
    let n: usize = s.unicode_len();
    let p: usize = prefix.unicode_len();
    if n <= p {
        return None;
    }
    let head = s.substring_char(0, p);
    if !text::same_text(head, prefix) {
        assert(!prefix@.is_prefix_of(s@)) by {
            if prefix@.is_prefix_of(s@) {
                assert(head@ =~= prefix@);
            }
        }
        return None;
    }
    assert(prefix@.is_prefix_of(s@)) by {
        assert(s@.subrange(0, p as int) =~= prefix@);
    }
    if s.get_char(n - 1) != '>' {
        return None;
    }
    Some(String::from_str(s.substring_char(p, n - 1)))
}

impl FieldKind {
    /// The kind that a text names, or why it names none.
    pub fn parse(spec: &str) -> (r: Result<FieldKind, String>)
        ensures
            match r {
                Ok(k) => kind_of(spec@) == Ok::<FieldKind, Seq<char>>(k),
                Err(m) => kind_of(spec@) == Err::<FieldKind, Seq<char>>(m@),
            },
    {
        if text::same_text(spec, "any") {
            return Ok(FieldKind::Any);
        }
        if let Some(k) = parse_scalar(spec) {
            return Ok(k);
        }
        if let Some(element) = between(spec, "array<") {
            return match parse_scalar(element.as_str()) {
                Some(k) => Ok(FieldKind::Array(Box::new(k))),
                None => Err(element_error(element.as_str(), "array<")),
            };
        }
        if let Some(element) = between(spec, "set<") {
            return match parse_scalar(element.as_str()) {
                Some(k) => Ok(FieldKind::SetOf(Box::new(k))),
                None => Err(element_error(element.as_str(), "set<")),
            };
        }
        Err(
            text::cat3(
                "unknown field kind `",
                spec,
                "` (expected string|bool|int|uint|float|datetime|enum|any, or array<...>/set<...> of a scalar kind)",
            ),
        )
    }

    /// The kind that enum values belong to: the element kind of a list or set,
    /// or the kind itself.
    pub open spec fn base_kind(self) -> FieldKind {
        match self {
            FieldKind::Array(k) => *k,
            FieldKind::SetOf(k) => *k,
            _ => self,
        }
    }

    /// The element kind of a list or set, or the kind itself.
    pub fn base(&self) -> (r: &FieldKind)
        ensures
            *r == self.base_kind(),
    {
        match self {
            FieldKind::Array(k) => k,
            FieldKind::SetOf(k) => k,
            _ => self,
        }
    }
}

fn element_error(element: &str, prefix: &str) -> (r: String)
    ensures
        r@ == element_message(element@, prefix@),
{
    text::cat5(
        "`",
        element,
        "` is not a valid element kind for `",
        prefix,
        "...>` (expected a scalar: string|bool|int|uint|float|datetime|enum)",
    )
}

/// A kind that parses never nests: the elements of a list or set are scalars.
pub proof fn containers_do_not_nest(spec: Seq<char>)
    requires
        kind_of(spec) is Ok,
    ensures
        ({
            let k = kind_of(spec)->Ok_0.base_kind();
            !(k is Array) && !(k is SetOf)
        }),
        kind_of(spec)->Ok_0 is Array || kind_of(spec)->Ok_0 is SetOf ==> !(
        kind_of(spec)->Ok_0.base_kind() is Any),
{
}

/// The compact texts of a list of values.
pub open spec fn compact_all(items: Seq<JsonV>) -> Seq<Seq<char>> {
    items.map_values(|v: JsonV| json::compact(v))
}

/// Whether a value is of a kind. `values` are the values of an enum.
pub open spec fn fits_kind(kind: FieldKind, value: JsonV, values: Seq<Seq<char>>) -> bool
    decreases kind,
{
    match kind {
        FieldKind::String => value is Str,
        FieldKind::Bool => value is Bool,
        FieldKind::Int => match value {
            JsonV::Num(json::NumberV::Pos(u)) => u <= i64::MAX,
            JsonV::Num(json::NumberV::Neg(_)) => true,
            _ => false,
        },
        FieldKind::Uint => match value {
            JsonV::Num(json::NumberV::Pos(_)) => true,
            _ => false,
        },
        FieldKind::Float => value is Num,
        FieldKind::Datetime => match value {
            JsonV::Str(s) => pattern::is_rfc3339(s),
            _ => false,
        },
        FieldKind::Enum => match value {
            JsonV::Str(s) => values.contains(s),
            _ => false,
        },
        FieldKind::Any => true,
        FieldKind::Array(element) => match value {
            JsonV::List(items) => forall|i: int|
                0 <= i < items.len() ==> fits_kind(*element, #[trigger] items[i], values),
            _ => false,
        },
        FieldKind::SetOf(element) => match value {
            JsonV::List(items) => compact_all(items).no_duplicates() && forall|i: int|
                0 <= i < items.len() ==> fits_kind(*element, #[trigger] items[i], values),
            _ => false,
        },
    }
}

/// Whether no two values have the same compact text.
fn all_different(items: &Vec<Json>) -> (r: bool)
    ensures
        r == compact_all(items.deep_view()).no_duplicates(),
{
    let ghost all = compact_all(items.deep_view());
    let mut seen = StrSet::new();
    let mut i: usize = 0;
    while i < items.len()
        invariant
            i <= items.len(),
            all == compact_all(items.deep_view()),
            all.len() == items.len(),
            forall|k: Seq<char>| #[trigger]
                seen@.contains(k) <==> exists|j: int| 0 <= j < i && #[trigger] all[j] == k,
            forall|a: int, b: int| 0 <= a < b < i ==> all[a] != all[b],
        decreases items.len() - i,
    {
        let t = json::compact_text(&items[i]);
        assert(all[i as int] == t@);
        if !seen.insert(t) {
            proof {
                let j = choose|j: int| 0 <= j < i && #[trigger] all[j] == all[i as int];
                assert(all[j] == all[i as int] && j != i);
            }
            return false;
        }
        proof {
            assert forall|a: int, b: int| 0 <= a < b < i + 1 implies all[a] != all[b] by {
                if b == i && all[a] == all[b] {
                    assert(all[a] == all[i as int]);
                }
            }
        }
        i += 1;
    }
    true
}

proof fn lemma_fits_list(element: FieldKind, items: Seq<JsonV>, values: Seq<Seq<char>>)
    ensures
        fits_kind(FieldKind::Array(Box::new(element)), JsonV::List(items), values) == (forall|i: int|
            0 <= i < items.len() ==> fits_kind(element, #[trigger] items[i], values)),
        fits_kind(FieldKind::SetOf(Box::new(element)), JsonV::List(items), values) == (compact_all(
            items,
        ).no_duplicates() && forall|i: int|
            0 <= i < items.len() ==> fits_kind(element, #[trigger] items[i], values)),
{
    reveal_with_fuel(fits_kind, 2);
}

impl FieldKind {
    /// Whether `value` is of this kind. `values` are the values of an enum.
    pub fn matches_value(&self, value: &Json, values: &Vec<String>) -> (r: bool)
        ensures
            r == fits_kind(*self, value@, values.deep_view()),
        decreases *self, 0nat,
    {
        match self {
            FieldKind::String => match value {
                Json::Str(_) => true,
                _ => false,
            },
            FieldKind::Bool => match value {
                Json::Bool(_) => true,
                _ => false,
            },
            FieldKind::Int => match value {
                Json::Num(n) => match n.kind() {
                    json::NumberKind::Pos(u) => u <= i64::MAX as u64,
                    json::NumberKind::Neg(_) => true,
                    json::NumberKind::Float(_) => false,
                },
                _ => false,
            },
            FieldKind::Uint => match value {
                Json::Num(n) => match n.kind() {
                    json::NumberKind::Pos(_) => true,
                    _ => false,
                },
                _ => false,
            },
            FieldKind::Float => match value {
                Json::Num(_) => true,
                _ => false,
            },
            FieldKind::Datetime => match value {
                Json::Str(s) => pattern::parses_as_time(s.as_str()),
                _ => false,
            },
            FieldKind::Enum => match value {
                Json::Str(s) => crate::engine::contains_text(values, s.as_str()),
                _ => false,
            },
            FieldKind::Any => true,
            FieldKind::Array(element) => match value {
                Json::List(items) => {
                    proof {
                        json::lemma_list_view(*items);
                    }
                    proof {
                        lemma_fits_list(**element, items.deep_view(), values.deep_view());
                    }
                    all_match(element, items, values)
                },
                _ => false,
            },
            FieldKind::SetOf(element) => match value {
                Json::List(items) => {
                    proof {
                        json::lemma_list_view(*items);
                    }
                    proof {
                        lemma_fits_list(**element, items.deep_view(), values.deep_view());
                    }
                    all_different(items) && all_match(element, items, values)
                },
                _ => false,
            },
        }
    }
}

fn all_match(element: &FieldKind, items: &Vec<Json>, values: &Vec<String>) -> (r: bool)
    ensures
        r == forall|i: int|
            0 <= i < items.deep_view().len() ==> fits_kind(
                *element,
                #[trigger] items.deep_view()[i],
                values.deep_view(),
            ),
    decreases *element, 1nat,
{
    let ghost all = items.deep_view();
    let mut i: usize = 0;
    while i < items.len()
        invariant
            i <= items.len(),
            all == items.deep_view(),
            forall|j: int| 0 <= j < i ==> fits_kind(*element, #[trigger] all[j], values.deep_view()),
        decreases items.len() - i,
    {
        assert(all[i as int] == items@[i as int]@);
        if !element.matches_value(&items[i], values) {
            return false;
        }
        i += 1;
    }
    true
}

impl FieldSchemaV {
    /// The declared kind.
    pub open spec fn kind(self) -> Seq<char> {
        match self {
            FieldSchemaV::Short(k) => k,
            FieldSchemaV::Full(spec) => spec.kind,
        }
    }

    /// The values of an enum.
    pub open spec fn values(self) -> Seq<Seq<char>> {
        match self {
            FieldSchemaV::Short(_) => Seq::empty(),
            FieldSchemaV::Full(spec) => spec.values,
        }
    }

    /// What each value of an enum may change into, if that is declared.
    pub open spec fn transitions(self) -> Option<Map<Seq<char>, Seq<Seq<char>>>> {
        match self {
            FieldSchemaV::Short(_) => None,
            FieldSchemaV::Full(spec) => if spec.transitions == Map::<
                Seq<char>,
                Seq<Seq<char>>,
            >::empty() {
                None
            } else {
                Some(spec.transitions)
            },
        }
    }

    /// Whether every task of the type has to hold the field.
    pub open spec fn required(self) -> bool {
        match self {
            FieldSchemaV::Short(_) => false,
            FieldSchemaV::Full(spec) => spec.required,
        }
    }

    /// The value a task gets where it has none.
    pub open spec fn default_value(self) -> Option<JsonV> {
        match self {
            FieldSchemaV::Short(_) => None,
            FieldSchemaV::Full(spec) => spec.default,
        }
    }
}

impl FieldSchema {
    /// The declared kind.
    pub fn kind_str(&self) -> (r: &str)
        ensures
            r@ == self.deep_view().kind(),
    {
        match self {
            FieldSchema::Short(k) => k.as_str(),
            FieldSchema::Full(spec) => spec.kind.as_str(),
        }
    }

    /// The values of an enum.
    pub fn values(&self) -> (r: Vec<String>)
        ensures
            r.deep_view() == self.deep_view().values(),
    {
        match self {
            FieldSchema::Short(_) => {
                let r: Vec<String> = Vec::new();
                assert(r.deep_view() =~= Seq::empty());
                r
            },
            FieldSchema::Full(spec) => spec.values.copy(),
        }
    }

    /// What each value of an enum may change into, if that is declared.
    pub fn transitions(&self) -> (r: Option<&StrMap<Vec<String>>>)
        ensures
            match r {
                Some(m) => self.deep_view().transitions() == Some(m@),
                None => self.deep_view().transitions() is None,
            },
    {
        match self {
            FieldSchema::Short(_) => None,
            FieldSchema::Full(spec) => {
                if spec.transitions.is_empty() {
                    None
                } else {
                    Some(&spec.transitions)
                }
            },
        }
    }

    /// Whether every task of the type has to hold the field.
    pub fn required(&self) -> (r: bool)
        ensures
            r == self.deep_view().required(),
    {
        match self {
            FieldSchema::Short(_) => false,
            FieldSchema::Full(spec) => spec.required,
        }
    }

    /// The long form, if this is one.
    pub fn spec(&self) -> (r: Option<&FieldSpec>)
        ensures
            match r {
                Some(f) => self.deep_view() == FieldSchemaV::Full(f.deep_view()),
                None => self.deep_view() is Short,
            },
    {
        match self {
            FieldSchema::Short(_) => None,
            FieldSchema::Full(f) => Some(f),
        }
    }

    /// The value a task gets where it has none.
    pub fn default_value(&self) -> (r: Option<&Json>)
        ensures
            match r {
                Some(v) => self.deep_view().default_value() == Some(v@),
                None => self.deep_view().default_value() is None,
            },
    {
        match self {
            FieldSchema::Short(_) => None,
            FieldSchema::Full(f) => match &f.default {
                Some(v) => Some(v),
                None => None,
            },
        }
    }
}

/// What is wrong with a value below its least or above its greatest one.
pub open spec fn bound_violations(spec: FieldSpecV, value: JsonV) -> Seq<Seq<char>> {
    (match spec.min {
        Some(min) => text::listed(
            json::json_order(value, min) == text::Order::Less,
            "is below min "@ + json::compact(min),
        ),
        None => Seq::empty(),
    }) + (match spec.max {
        Some(max) => text::listed(
            json::json_order(value, max) == text::Order::Greater,
            "exceeds max "@ + json::compact(max),
        ),
        None => Seq::empty(),
    })
}

/// What is wrong with a text that does not match its pattern. A pattern that
/// does not compile says nothing.
pub open spec fn pattern_violations(spec: FieldSpecV, value: JsonV) -> Seq<Seq<char>> {
    match (spec.pattern, value) {
        (Some(p), JsonV::Str(t)) => text::listed(
            pattern::regex_error(p) is None && !pattern::regex_matches(p, t),
            "does not match pattern `"@ + p + "`"@,
        ),
        _ => Seq::empty(),
    }
}

/// What is wrong with a count that lies outside its bounds.
pub open spec fn count_violations(
    count: nat,
    least: Option<u64>,
    most: Option<u64>,
    below: Seq<char>,
    above: Seq<char>,
) -> Seq<Seq<char>> {
    (match least {
        Some(n) => text::listed(count < n, below + text::decimal(n as nat)),
        None => Seq::empty(),
    }) + (match most {
        Some(n) => text::listed(count > n, above + text::decimal(n as nat)),
        None => Seq::empty(),
    })
}

/// What is wrong with the length of a text or of a list.
pub open spec fn size_violations(spec: FieldSpecV, value: JsonV) -> Seq<Seq<char>> {
    match value {
        JsonV::Str(t) => count_violations(
            t.len(),
            spec.min_len,
            spec.max_len,
            "is shorter than min_len "@,
            "is longer than max_len "@,
        ),
        JsonV::List(items) => count_violations(
            items.len(),
            spec.min_items,
            spec.max_items,
            "has fewer than min_items "@,
            "has more than max_items "@,
        ),
        _ => Seq::empty(),
    }
}

/// Everything that a value violates of the field's constraints.
pub open spec fn violations(schema: FieldSchemaV, value: JsonV) -> Seq<Seq<char>> {
    match schema {
        FieldSchemaV::Short(_) => Seq::empty(),
        FieldSchemaV::Full(spec) => bound_violations(spec, value) + pattern_violations(spec, value)
            + size_violations(spec, value),
    }
}

/// No text.
fn no_texts() -> (r: Vec<String>)
    ensures
        r.deep_view() == Seq::<Seq<char>>::empty(),
{
    let r: Vec<String> = Vec::new();
    assert(r.deep_view() =~= Seq::<Seq<char>>::empty());
    r
}

fn check_bounds(spec: &FieldSpec, value: &Json) -> (r: Vec<String>)
    ensures
        r.deep_view() == bound_violations(spec.deep_view(), value@),
{
    let mut out = match &spec.min {
        Some(min) => {
            let low = match json::cmp_json(value, min) {
                text::Order::Less => true,
                _ => false,
            };
            text::list_if(low, text::cat2("is below min ", json::compact_text(min).as_str()))
        },
        None => no_texts(),
    };
    let high = match &spec.max {
        Some(max) => {
            let high = match json::cmp_json(value, max) {
                text::Order::Greater => true,
                _ => false,
            };
            text::list_if(high, text::cat2("exceeds max ", json::compact_text(max).as_str()))
        },
        None => no_texts(),
    };
    text::extend(&mut out, high);
    out
}

fn check_pattern(spec: &FieldSpec, value: &Json) -> (r: Vec<String>)
    ensures
        r.deep_view() == pattern_violations(spec.deep_view(), value@),
{
    match (&spec.pattern, value) {
        (Some(p), Json::Str(t)) => {
            let bad = pattern::pattern_error(p.as_str()).is_none() && !pattern::is_match(
                p.as_str(),
                t.as_str(),
            );
            text::list_if(bad, text::cat3("does not match pattern `", p.as_str(), "`"))
        },
        _ => no_texts(),
    }
}

fn check_count(
    count: usize,
    least: Option<u64>,
    most: Option<u64>,
    below: &str,
    above: &str,
) -> (r: Vec<String>)
    ensures
        r.deep_view() == count_violations(count as nat, least, most, below@, above@),
{
    let mut out = match least {
        Some(n) => text::list_if(
            (count as u64) < n,
            text::cat2(below, text::decimal_text(n).as_str()),
        ),
        None => no_texts(),
    };
    let more = match most {
        Some(n) => text::list_if(
            count as u64 > n,
            text::cat2(above, text::decimal_text(n).as_str()),
        ),
        None => no_texts(),
    };
    text::extend(&mut out, more);
    out
}

fn check_size(spec: &FieldSpec, value: &Json) -> (r: Vec<String>)
    ensures
        r.deep_view() == size_violations(spec.deep_view(), value@),
{
    match value {
        Json::Str(t) => check_count(
            t.as_str().unicode_len(),
            spec.min_len,
            spec.max_len,
            "is shorter than min_len ",
            "is longer than max_len ",
        ),
        Json::List(items) => check_count(
            items.len(),
            spec.min_items,
            spec.max_items,
            "has fewer than min_items ",
            "has more than max_items ",
        ),
        _ => no_texts(),
    }
}

impl FieldSchema {
    /// Everything that `value` violates of the field's constraints.
    pub fn constraint_violations(&self, value: &Json) -> (r: Vec<String>)
        ensures
            r.deep_view() == violations(self.deep_view(), value@),
    {
        match self {
            FieldSchema::Short(_) => no_texts(),
            FieldSchema::Full(spec) => {
                let mut out = check_bounds(spec, value);
                text::extend(&mut out, check_pattern(spec, value));
                text::extend(&mut out, check_size(spec, value));
                out
            },
        }
    }
}

/// Each text with `prefix` before it.
pub open spec fn prefixed(prefix: Seq<char>, texts: Seq<Seq<char>>) -> Seq<Seq<char>> {
    texts.map_values(|t: Seq<char>| prefix + t)
}

fn prefix_all(prefix: &str, texts: &Vec<String>) -> (r: Vec<String>)
    ensures
        r.deep_view() == prefixed(prefix@, texts.deep_view()),
{
    let mut out: Vec<String> = Vec::new();
    let mut i: usize = 0;
    while i < texts.len()
        invariant
            i <= texts.len(),
            out.len() == i,
            forall|k: int| 0 <= k < i ==> #[trigger] out@[k]@ == prefix@ + texts@[k]@,
        decreases texts.len() - i,
    {
        out.push(text::cat2(prefix, texts[i].as_str()));
        i += 1;
    }
    assert(out.deep_view() =~= prefixed(prefix@, texts.deep_view()));
    out
}

/// Whether values of a kind have an order to bound them in.
pub open spec fn is_ordered(kind: FieldKind) -> bool {
    kind is Int || kind is Uint || kind is Float || kind is Datetime || kind is String
}

/// The problem of a constraint that does not go with the declared kind.
pub open spec fn misplaced(ctx: Seq<char>, what: Seq<char>, kind: Seq<char>) -> Seq<char> {
    ctx + ": "@ + what + " (declared `"@ + kind + "`)"@
}

/// The problem of a bound that is not of the declared kind.
pub open spec fn bound_problem(
    ctx: Seq<char>,
    name: Seq<char>,
    bound: Option<JsonV>,
    kind: FieldKind,
    spec: FieldSpecV,
) -> Seq<Seq<char>> {
    match bound {
        Some(b) => text::listed(
            is_ordered(kind) && !fits_kind(kind, b, spec.values),
            ctx + ": `"@ + name + "` must itself satisfy the declared kind `"@ + spec.kind + "`"@,
        ),
        None => Seq::empty(),
    }
}

/// The problem of two counts in the wrong order.
pub open spec fn crossed_counts(
    ctx: Seq<char>,
    low: Option<u64>,
    high: Option<u64>,
    low_name: Seq<char>,
    high_name: Seq<char>,
) -> Seq<Seq<char>> {
    match (low, high) {
        (Some(lo), Some(hi)) => text::listed(
            lo > hi,
            ctx + low_name + text::decimal(lo as nat) + high_name + text::decimal(hi as nat),
        ),
        _ => Seq::empty(),
    }
}

/// The problems of a declared field's bounds.
pub open spec fn bounds_problems(ctx: Seq<char>, spec: FieldSpecV, kind: FieldKind) -> Seq<
    Seq<char>,
> {
    text::listed(
        (spec.min is Some || spec.max is Some) && !is_ordered(kind),
        misplaced(ctx, "min/max only apply to int|uint|float|datetime|string"@, spec.kind),
    ) + bound_problem(ctx, "min"@, spec.min, kind, spec) + bound_problem(
        ctx,
        "max"@,
        spec.max,
        kind,
        spec,
    ) + (match (spec.min, spec.max) {
        (Some(min), Some(max)) => text::listed(
            json::json_order(min, max) == text::Order::Greater,
            ctx + ": min "@ + json::compact(min) + " is greater than max "@ + json::compact(max),
        ),
        _ => Seq::empty(),
    })
}

/// The problems of a declared field's pattern and lengths.
pub open spec fn shape_problems(
    ctx: Seq<char>,
    spec: FieldSpecV,
    kind: FieldKind,
) -> Seq<Seq<char>> {
    text::listed(
        spec.pattern is Some && !(kind is String),
        misplaced(ctx, "`pattern` only applies to plain string fields"@, spec.kind),
    ) + (match spec.pattern {
        Some(p) => match pattern::regex_error(p) {
            Some(e) => seq![ctx + ": invalid `pattern`: "@ + e],
            None => Seq::empty(),
        },
        None => Seq::empty(),
    }) + text::listed(
        (spec.min_len is Some || spec.max_len is Some) && !(kind is String),
        misplaced(ctx, "min_len/max_len only apply to plain string fields"@, spec.kind),
    ) + crossed_counts(
        ctx,
        spec.min_len,
        spec.max_len,
        ": min_len "@,
        " is greater than max_len "@,
    ) + text::listed(
        (spec.min_items is Some || spec.max_items is Some) && !(kind is Array || kind is SetOf),
        misplaced(ctx, "min_items/max_items only apply to array<...>/set<...>"@, spec.kind),
    ) + crossed_counts(
        ctx,
        spec.min_items,
        spec.max_items,
        ": min_items "@,
        " is greater than max_items "@,
    )
}

/// The problems of a declared field's default.
pub open spec fn default_problems(ctx: Seq<char>, spec: FieldSpecV, kind: FieldKind) -> Seq<
    Seq<char>,
> {
    match spec.default {
        Some(d) => if fits_kind(kind, d, spec.values) {
            prefixed(
                ctx + ": `default` "@ + json::compact(d) + " "@,
                violations(FieldSchemaV::Full(spec), d),
            )
        } else {
            seq![
                ctx + ": `default` "@ + json::compact(d) + " doesn't satisfy the declared kind `"@
                    + spec.kind + "`"@,
            ]
        },
        None => Seq::empty(),
    }
}

/// All problems of a field's long form: its constraints have to go with its kind
/// and with each other, and its default has to meet them.
pub open spec fn field_spec_problems(ctx: Seq<char>, spec: FieldSpecV, kind: FieldKind) -> Seq<
    Seq<char>,
> {
    bounds_problems(ctx, spec, kind) + shape_problems(ctx, spec, kind) + default_problems(
        ctx,
        spec,
        kind,
    )
}

fn is_ordered_kind(kind: &FieldKind) -> (r: bool)
    ensures
        r == is_ordered(*kind),
{
    match kind {
        FieldKind::Int => true,
        FieldKind::Uint => true,
        FieldKind::Float => true,
        FieldKind::Datetime => true,
        FieldKind::String => true,
        _ => false,
    }
}

fn misplaced_text(ctx: &str, what: &str, kind: &str) -> (r: String)
    ensures
        r@ == misplaced(ctx@, what@, kind@),
{
    let mut out = text::cat5(ctx, ": ", what, " (declared `", kind);
    out.append("`)");
    out
}

fn check_bound(
    ctx: &str,
    name: &str,
    bound: &Option<Json>,
    kind: &FieldKind,
    spec: &FieldSpec,
) -> (r: Vec<String>)
    ensures
        r.deep_view() == bound_problem(
            ctx@,
            name@,
            bound.deep_view(),
            *kind,
            spec.deep_view(),
        ),
{
    match bound {
        Some(b) => text::list_if(
            is_ordered_kind(kind) && !kind.matches_value(b, &spec.values),
            text::cat6(
                ctx,
                ": `",
                name,
                "` must itself satisfy the declared kind `",
                spec.kind.as_str(),
                "`",
            ),
        ),
        None => no_texts(),
    }
}

fn check_crossed(
    ctx: &str,
    low: Option<u64>,
    high: Option<u64>,
    low_name: &str,
    high_name: &str,
) -> (r: Vec<String>)
    ensures
        r.deep_view() == crossed_counts(ctx@, low, high, low_name@, high_name@),
{
    match (low, high) {
        (Some(lo), Some(hi)) => text::list_if(
            lo > hi,
            text::cat5(
                ctx,
                low_name,
                text::decimal_text(lo).as_str(),
                high_name,
                text::decimal_text(hi).as_str(),
            ),
        ),
        _ => no_texts(),
    }
}

fn check_bounds_declared(ctx: &str, spec: &FieldSpec, kind: &FieldKind) -> (r: Vec<String>)
    ensures
        r.deep_view() == bounds_problems(ctx@, spec.deep_view(), *kind),
{
    let mut out = text::list_if(
        (spec.min.is_some() || spec.max.is_some()) && !is_ordered_kind(kind),
        misplaced_text(
            ctx,
            "min/max only apply to int|uint|float|datetime|string",
            spec.kind.as_str(),
        ),
    );
    text::extend(&mut out, check_bound(ctx, "min", &spec.min, kind, spec));
    text::extend(&mut out, check_bound(ctx, "max", &spec.max, kind, spec));
    let crossed = match (&spec.min, &spec.max) {
        (Some(min), Some(max)) => {
            let greater = match json::cmp_json(min, max) {
                text::Order::Greater => true,
                _ => false,
            };
            text::list_if(
                greater,
                text::cat5(
                    ctx,
                    ": min ",
                    json::compact_text(min).as_str(),
                    " is greater than max ",
                    json::compact_text(max).as_str(),
                ),
            )
        },
        _ => no_texts(),
    };
    text::extend(&mut out, crossed);
    out
}

fn check_shape_declared(ctx: &str, spec: &FieldSpec, kind: &FieldKind) -> (r: Vec<String>)
    ensures
        r.deep_view() == shape_problems(ctx@, spec.deep_view(), *kind),
{
    let is_string = match kind {
        FieldKind::String => true,
        _ => false,
    };
    let is_container = match kind {
        FieldKind::Array(_) => true,
        FieldKind::SetOf(_) => true,
        _ => false,
    };
    let kind_name = spec.kind.as_str();
    let mut out = text::list_if(
        spec.pattern.is_some() && !is_string,
        misplaced_text(ctx, "`pattern` only applies to plain string fields", kind_name),
    );
    let invalid = match &spec.pattern {
        Some(p) => match pattern::pattern_error(p.as_str()) {
            Some(e) => text::list_if(true, text::cat3(ctx, ": invalid `pattern`: ", e.as_str())),
            None => no_texts(),
        },
        None => no_texts(),
    };
    text::extend(&mut out, invalid);
    text::extend(
        &mut out,
        text::list_if(
            (spec.min_len.is_some() || spec.max_len.is_some()) && !is_string,
            misplaced_text(ctx, "min_len/max_len only apply to plain string fields", kind_name),
        ),
    );
    text::extend(
        &mut out,
        check_crossed(ctx, spec.min_len, spec.max_len, ": min_len ", " is greater than max_len "),
    );
    text::extend(
        &mut out,
        text::list_if(
            (spec.min_items.is_some() || spec.max_items.is_some()) && !is_container,
            misplaced_text(
                ctx,
                "min_items/max_items only apply to array<...>/set<...>",
                kind_name,
            ),
        ),
    );
    text::extend(
        &mut out,
        check_crossed(
            ctx,
            spec.min_items,
            spec.max_items,
            ": min_items ",
            " is greater than max_items ",
        ),
    );
    out
}

fn check_default(ctx: &str, spec: &FieldSpec, kind: &FieldKind, schema: &FieldSchema) -> (r: Vec<
    String,
>)
    requires
        schema.deep_view() == FieldSchemaV::Full(spec.deep_view()),
    ensures
        r.deep_view() == default_problems(ctx@, spec.deep_view(), *kind),
{
    match &spec.default {
        Some(d) => {
            let shown = json::compact_text(d);
            if kind.matches_value(d, &spec.values) {
                let mut prefix = text::cat3(ctx, ": `default` ", shown.as_str());
                prefix.append(" ");
                prefix_all(prefix.as_str(), &schema.constraint_violations(d))
            } else {
                let mut m = text::cat5(
                    ctx,
                    ": `default` ",
                    shown.as_str(),
                    " doesn't satisfy the declared kind `",
                    spec.kind.as_str(),
                );
                m.append("`");
                text::list_if(true, m)
            }
        },
        None => no_texts(),
    }
}

impl Config {
    /// All problems of a field's long form.
    fn collect_field_spec_problems(
        ctx: &str,
        spec: &FieldSpec,
        kind: &FieldKind,
        schema: &FieldSchema,
    ) -> (r: Vec<String>)
        requires
            schema.deep_view() == FieldSchemaV::Full(spec.deep_view()),
        ensures
            r.deep_view() == field_spec_problems(ctx@, spec.deep_view(), *kind),
    {
        let mut out = check_bounds_declared(ctx, spec, kind);
        text::extend(&mut out, check_shape_declared(ctx, spec, kind));
        text::extend(&mut out, check_default(ctx, spec, kind, schema));
        out
    }
}

/// The declared changes of a field's value in the model.
pub type TransitionsV = Map<Seq<char>, Seq<Seq<char>>>;

/// The problems of the targets of one state: each has to be a declared value,
/// and each is named once.
pub open spec fn target_problems(
    ctx: Seq<char>,
    from: Seq<char>,
    targets: Seq<Seq<char>>,
    values: Seq<Seq<char>>,
) -> Seq<Seq<char>>
    decreases targets.len(),
{
    if targets.len() == 0 {
        Seq::empty()
    } else {
        let rest = target_problems(ctx, from, targets.drop_last(), values);
        let to = targets.last();
        let head = ctx + ".transitions."@ + from;
        if !values.contains(to) {
            rest.push(
                head + ": target `"@ + to + "` is not one of the declared values ("@ + text::joined(
                    values,
                    ", "@,
                ) + ")"@,
            )
        } else if targets.drop_last().contains(to) {
            rest.push(head + ": duplicate target `"@ + to + "`"@)
        } else {
            rest
        }
    }
}

/// The problems of the states `keys` of a state machine.
pub open spec fn state_problems(
    ctx: Seq<char>,
    transitions: TransitionsV,
    keys: Seq<Seq<char>>,
    values: Seq<Seq<char>>,
) -> Seq<Seq<char>>
    decreases keys.len(),
{
    if keys.len() == 0 {
        Seq::empty()
    } else {
        let from = keys.last();
        state_problems(ctx, transitions, keys.drop_last(), values) + text::listed(
            !values.contains(from),
            ctx + ".transitions: state `"@ + from + "` is not one of the declared values ("@
                + text::joined(values, ", "@) + ")"@,
        ) + target_problems(ctx, from, transitions[from], values)
    }
}

/// Each text between backquotes.
pub open spec fn ticked(texts: Seq<Seq<char>>) -> Seq<Seq<char>> {
    texts.map_values(|t: Seq<char>| "`"@ + t + "`"@)
}

/// The values without an entry of their own.
pub open spec fn states_missing(transitions: TransitionsV, values: Seq<Seq<char>>) -> Seq<Seq<char>>
    decreases values.len(),
{
    if values.len() == 0 {
        Seq::empty()
    } else {
        let rest = states_missing(transitions, values.drop_last());
        if transitions.contains_key(values.last()) {
            rest
        } else {
            rest.push(values.last())
        }
    }
}

/// The problem of values without an entry.
pub open spec fn totality_problems(
    ctx: Seq<char>,
    transitions: TransitionsV,
    values: Seq<Seq<char>>,
) -> Seq<Seq<char>> {
    let missing = states_missing(transitions, values);
    text::listed(
        missing.len() > 0,
        ctx + ".transitions: no entry for state(s) "@ + text::joined(ticked(missing), ", "@)
            + " - every declared value needs one (write `"@ + missing[0]
            + " = []` to make a state terminal)"@,
    )
}

/// The single steps that a state machine allows.
pub open spec fn steps(transitions: TransitionsV) -> Set<(Seq<char>, Seq<char>)> {
    Set::new(
        |e: (Seq<char>, Seq<char>)|
            transitions.contains_key(e.0) && transitions[e.0].contains(e.1),
    )
}

/// Whether a state is `done` or leads to it.
pub open spec fn can_finish(transitions: TransitionsV, state: Seq<char>, done: Seq<char>) -> bool {
    state == done || reach::reaches(steps(transitions), state, done)
}

/// The values from which `done` cannot be reached.
pub open spec fn stranded(
    transitions: TransitionsV,
    values: Seq<Seq<char>>,
    done: Seq<char>,
) -> Seq<
    Seq<char>,
>
    decreases values.len(),
{
    if values.len() == 0 {
        Seq::empty()
    } else {
        let rest = stranded(transitions, values.drop_last(), done);
        if can_finish(transitions, values.last(), done) {
            rest
        } else {
            rest.push(values.last())
        }
    }
}

/// The problems of a status that some task could never leave for `done`.
pub open spec fn reachability_problems(
    ctx: Seq<char>,
    transitions: TransitionsV,
    values: Seq<Seq<char>>,
    done: Seq<char>,
) -> Seq<Seq<char>> {
    if !values.contains(done) {
        seq![
            ctx + ".transitions: `[workflow] done_status` is `"@ + done
                + "`, which is not one of the declared values ("@ + text::joined(values, ", "@)
                + ") - no task of this type could ever be done"@,
        ]
    } else {
        let lost = stranded(transitions, values, done);
        text::listed(
            lost.len() > 0,
            ctx + ".transitions: state(s) "@ + text::joined(ticked(lost), ", "@)
                + " cannot reach `"@ + done + "` - a task in them could never be done"@,
        )
    }
}

/// The problems of a field's state machine. `done` is the status of finished
/// tasks where the field is the status field.
pub open spec fn transitions_problems(
    ctx: Seq<char>,
    schema: FieldSchemaV,
    kind: FieldKind,
    done: Option<Seq<char>>,
) -> Seq<Seq<char>> {
    match schema.transitions() {
        None => Seq::empty(),
        Some(transitions) => {
            let values = schema.values();
            if !(kind is Enum) {
                seq![
                    misplaced(
                        ctx,
                        "`transitions` only applies to the scalar enum kind"@,
                        schema.kind(),
                    ),
                ]
            } else if values.len() == 0 {
                Seq::empty()
            } else {
                state_problems(ctx, transitions, strmap::sorted_of(transitions.dom()), values)
                    + totality_problems(ctx, transitions, values) + (match done {
                    Some(d) => reachability_problems(ctx, transitions, values, d),
                    None => Seq::empty(),
                })
            }
        },
    }
}

fn check_targets(ctx: &str, from: &str, targets: &Vec<String>, values: &Vec<String>) -> (r: Vec<
    String,
>)
    ensures
        r.deep_view() == target_problems(
            ctx@,
            from@,
            targets.deep_view(),
            values.deep_view(),
        ),
{
    let ghost all = targets.deep_view();
    let head = text::cat3(ctx, ".transitions.", from);
    let known = text::join(values, ", ");
    let mut out = no_texts();
    let mut seen: Vec<String> = Vec::new();
    let mut i: usize = 0;
    assert(all.take(0) =~= Seq::empty());
    while i < targets.len()
        invariant
            i <= targets.len(),
            all == targets.deep_view(),
            head@ == ctx@ + ".transitions."@ + from@,
            known@ == text::joined(values.deep_view(), ", "@),
            seen.deep_view() == all.take(i as int),
            out.deep_view() == target_problems(
                ctx@,
                from@,
                all.take(i as int),
                values.deep_view(),
            ),
        decreases targets.len() - i,
    {
        let to = &targets[i];
        let ghost longer = all.take(i as int + 1);
        assert(longer.drop_last() =~= all.take(i as int));
        assert(longer.last() == to@);
        let ghost had = out.deep_view();
        if !crate::engine::contains_text(values, to.as_str()) {
            let m = text::cat6(
                head.as_str(),
                ": target `",
                to.as_str(),
                "` is not one of the declared values (",
                known.as_str(),
                ")",
            );
            out.push(m);
            assert(out.deep_view() =~= had.push(m@));
        } else if crate::engine::contains_text(&seen, to.as_str()) {
            let m = text::cat3(head.as_str(), ": duplicate target `", to.as_str());
            let m = text::cat2(m.as_str(), "`");
            out.push(m);
            assert(out.deep_view() =~= had.push(m@));
        }
        let ghost was = seen.deep_view();
        seen.push(to.clone());
        assert(seen.deep_view() =~= was.push(to@));
        assert(longer =~= all.take(i as int).push(to@));
        i += 1;
    }
    assert(all.take(targets.len() as int) =~= all);
    out
}

fn check_states(ctx: &str, transitions: &StrMap<Vec<String>>, values: &Vec<String>) -> (r: Vec<
    String,
>)
    ensures
        r.deep_view() == state_problems(
            ctx@,
            transitions@,
            strmap::sorted_of(transitions@.dom()),
            values.deep_view(),
        ),
{
    let n = transitions.len();
    let ghost keys = transitions.keys_view();
    let known = text::join(values, ", ");
    let mut out = no_texts();
    let mut i: usize = 0;
    assert(keys.take(0) =~= Seq::empty());
    while i < n
        invariant
            i <= n,
            n == keys.len(),
            keys == transitions.keys_view(),
            known@ == text::joined(values.deep_view(), ", "@),
            out.deep_view() == state_problems(
                ctx@,
                transitions@,
                keys.take(i as int),
                values.deep_view(),
            ),
        decreases n - i,
    {
        let from = transitions.key_at(i);
        let targets = transitions.value_at(i);
        let ghost longer = keys.take(i as int + 1);
        assert(longer.drop_last() =~= keys.take(i as int));
        assert(longer.last() == from@);
        let m = text::cat6(
            ctx,
            ".transitions: state `",
            from.as_str(),
            "` is not one of the declared values (",
            known.as_str(),
            ")",
        );
        text::extend(
            &mut out,
            text::list_if(!crate::engine::contains_text(values, from.as_str()), m),
        );
        text::extend(&mut out, check_targets(ctx, from.as_str(), targets, values));
        i += 1;
    }
    assert(keys.take(n as int) =~= keys);
    out
}

fn tick_all(texts: &Vec<String>) -> (r: Vec<String>)
    ensures
        r.deep_view() == ticked(texts.deep_view()),
{
    let mut out: Vec<String> = Vec::new();
    let mut i: usize = 0;
    while i < texts.len()
        invariant
            i <= texts.len(),
            out.len() == i,
            forall|k: int| 0 <= k < i ==> #[trigger] out@[k]@ == "`"@ + texts@[k]@ + "`"@,
        decreases texts.len() - i,
    {
        out.push(text::cat3("`", texts[i].as_str(), "`"));
        i += 1;
    }
    assert(out.deep_view() =~= ticked(texts.deep_view()));
    out
}

fn check_totality(ctx: &str, transitions: &StrMap<Vec<String>>, values: &Vec<String>) -> (r: Vec<
    String,
>)
    ensures
        r.deep_view() == totality_problems(ctx@, transitions@, values.deep_view()),
{
    let ghost all = values.deep_view();
    let mut missing: Vec<String> = Vec::new();
    let mut i: usize = 0;
    assert(all.take(0) =~= Seq::empty());
    assert(missing.deep_view() =~= Seq::empty());
    while i < values.len()
        invariant
            i <= values.len(),
            all == values.deep_view(),
            missing.deep_view() == states_missing(transitions@, all.take(i as int)),
        decreases values.len() - i,
    {
        let ghost longer = all.take(i as int + 1);
        assert(longer.drop_last() =~= all.take(i as int));
        assert(longer.last() == values@[i as int]@);
        if !transitions.contains_key(values[i].as_str()) {
            let ghost had = missing.deep_view();
            missing.push(values[i].clone());
            assert(missing.deep_view() =~= had.push(values@[i as int]@));
        }
        i += 1;
    }
    assert(all.take(values.len() as int) =~= all);
    if missing.len() == 0 {
        return no_texts();
    }
    let shown = text::join(&tick_all(&missing), ", ");
    let m = text::cat6(
        ctx,
        ".transitions: no entry for state(s) ",
        shown.as_str(),
        " - every declared value needs one (write `",
        missing[0].as_str(),
        " = []` to make a state terminal)",
    );
    text::list_if(true, m)
}

/// Every state that a state machine names, and `done`.
fn all_states(transitions: &StrMap<Vec<String>>, done: &str) -> (r: StrSet)
    ensures
        r@.contains(done@),
        forall|k: Seq<char>| #[trigger] transitions@.contains_key(k) ==> r@.contains(k),
        forall|k: Seq<char>, t: Seq<char>| #[trigger]
            steps(transitions@).contains((k, t)) ==> r@.contains(t),
{
    let n = transitions.len();
    let ghost keys = transitions.keys_view();
    let mut out = StrSet::new();
    let _ = out.insert(String::from_str(done));
    let mut i: usize = 0;
    while i < n
        invariant
            i <= n,
            n == keys.len(),
            keys == transitions.keys_view(),
            out@.contains(done@),
            forall|k: int| 0 <= k < i ==> out@.contains(#[trigger] keys[k]),
            forall|k: int, t: Seq<char>|
                0 <= k < i && #[trigger] transitions@[keys[k]].contains(t) ==> out@.contains(t),
        decreases n - i,
    {
        let _ = out.insert(transitions.key_at(i).clone());
        let targets = transitions.value_at(i);
        let ghost all = targets.deep_view();
        let ghost before = out@;
        let mut j: usize = 0;
        while j < targets.len()
            invariant
                j <= targets.len(),
                all == targets.deep_view(),
                forall|k: Seq<char>| before.contains(k) ==> #[trigger] out@.contains(k),
                forall|k: int| 0 <= k < j ==> out@.contains(#[trigger] all[k]),
            decreases targets.len() - j,
        {
            assert(all[j as int] == targets@[j as int]@);
            let _ = out.insert(targets[j].clone());
            j += 1;
        }
        proof {
            assert forall|k: int, t: Seq<char>|
                0 <= k < i + 1 && #[trigger] transitions@[keys[k]].contains(t) implies out@.contains(
                t,
            ) by {
                if k == i {
                    let x = choose|x: int| 0 <= x < all.len() && all[x] == t;
                    assert(out@.contains(all[x]));
                }
            }
        }
        i += 1;
    }
    proof {
        assert forall|k: Seq<char>| #[trigger] transitions@.contains_key(k) implies out@.contains(
            k,
        ) by {
            assert(keys.to_set().contains(k));
            let x = choose|x: int| 0 <= x < keys.len() && keys[x] == k;
            assert(out@.contains(keys[x]));
        }
        assert forall|k: Seq<char>, t: Seq<char>| #[trigger]
            steps(transitions@).contains((k, t)) implies out@.contains(t) by {
            assert(keys.to_set().contains(k));
            let x = choose|x: int| 0 <= x < keys.len() && keys[x] == k;
            assert(transitions@[keys[x]].contains(t));
        }
    }
    out
}

/// The places among `names` of the targets of each of them.
fn step_places(names: &StrSet, transitions: &StrMap<Vec<String>>) -> (r: Vec<Vec<usize>>)
    requires
        forall|k: Seq<char>| #[trigger] transitions@.contains_key(k) ==> names@.contains(k),
        forall|k: Seq<char>, t: Seq<char>| #[trigger]
            steps(transitions@).contains((k, t)) ==> names@.contains(t),
    ensures
        r.len() == names.members().len(),
        forall|i: int, j: int|
            0 <= i < r.len() && 0 <= j < r[i].len() ==> #[trigger] r[i][j] < r.len(),
        reach::names_edges(
            reach::adjacency(r.deep_view()),
            names.members(),
            steps(transitions@),
        ),
{
    let n = names.len();
    let ghost keys = names.members();
    let ghost es = steps(transitions@);
    proof {
        strmap::lemma_ascending_distinct(keys);
    }
    let mut out: Vec<Vec<usize>> = Vec::new();
    let mut i: usize = 0;
    while i < n
        invariant
            i <= n,
            n == keys.len(),
            keys == names.members(),
            keys.to_set() == names@,
            keys.no_duplicates(),
            es == steps(transitions@),
            forall|k: Seq<char>, t: Seq<char>| #[trigger]
                es.contains((k, t)) ==> names@.contains(t),
            out.len() == i,
            forall|p: int, q: int|
                0 <= p < out.len() && 0 <= q < out[p].len() ==> #[trigger] out[p][q] < n,
            forall|p: int, q: usize|
                0 <= p < out.len() && q < n ==> (#[trigger] out[p]@.contains(q) <==> es.contains(
                    (keys[p], keys[q as int]),
                )),
        decreases n - i,
    {
        let ghost here = keys[i as int];
        let mut row: Vec<usize> = Vec::new();
        if let Some(targets) = transitions.get(names.at(i).as_str()) {
            let ghost all = targets.deep_view();
            let mut j: usize = 0;
            while j < targets.len()
                invariant
                    j <= targets.len(),
                    n == keys.len(),
                    keys == names.members(),
                    keys.to_set() == names@,
                    keys.no_duplicates(),
                    all == targets.deep_view(),
                    transitions@.contains_key(here),
                    transitions@[here] == all,
                    es == steps(transitions@),
                    forall|k: Seq<char>, t: Seq<char>| #[trigger]
                        es.contains((k, t)) ==> names@.contains(t),
                    forall|q: int| 0 <= q < row.len() ==> #[trigger] row[q] < n,
                    forall|q: usize|
                        q < n ==> (#[trigger] row@.contains(q) <==> exists|k: int|
                            0 <= k < j && #[trigger] all[k] == keys[q as int]),
                decreases targets.len() - j,
            {
                let ghost was = row@;
                assert(all[j as int] == targets@[j as int]@);
                assert(es.contains((here, all[j as int]))) by {
                    assert(all.contains(all[j as int]));
                }
                if let Some(at) = names.index_of(targets[j].as_str()) {
                    row.push(at);
                    proof {
                        assert forall|q: usize| q < n implies (#[trigger] row@.contains(q)
                            <==> exists|k: int|
                            0 <= k < j + 1 && #[trigger] all[k] == keys[q as int]) by {
                            if row@.contains(q) {
                                let x = choose|x: int| 0 <= x < row@.len() && row@[x] == q;
                                if x < was.len() {
                                    assert(was[x] == q);
                                    assert(was.contains(q));
                                } else {
                                    assert(all[j as int] == keys[q as int]);
                                }
                            }
                            if exists|k: int|
                                0 <= k < j + 1 && #[trigger] all[k] == keys[q as int] {
                                let k = choose|k: int|
                                    0 <= k < j + 1 && #[trigger] all[k] == keys[q as int];
                                if k < j {
                                    assert(was.contains(q));
                                    let x = choose|x: int| 0 <= x < was.len() && was[x] == q;
                                    assert(row@[x] == q);
                                } else {
                                    assert(keys[at as int] == keys[q as int]);
                                    assert(row@[was.len() as int] == q);
                                }
                            }
                        }
                    }
                }
                j += 1;
            }
            proof {
                assert forall|q: usize| q < n implies (#[trigger] row@.contains(q) <==> es.contains(
                    (here, keys[q as int]),
                )) by {
                    if row@.contains(q) {
                        let k = choose|k: int|
                            0 <= k < targets.len() && #[trigger] all[k] == keys[q as int];
                        assert(all.contains(keys[q as int]));
                    }
                    if es.contains((here, keys[q as int])) {
                        let k = choose|k: int| 0 <= k < all.len() && all[k] == keys[q as int];
                        assert(all[k] == keys[q as int]);
                    }
                }
            }
        }
        out.push(row);
        i += 1;
    }
    proof {
        let adj = out.deep_view();
        let ix = reach::adjacency(adj);
        assert forall|p: usize, q: usize| #[trigger] ix.contains((p, q)) <==> (p < n && q < n
            && es.contains((keys[p as int], keys[q as int]))) by {
            if p < n {
                assert(adj[p as int] =~= out@[p as int]@);
                if out@[p as int]@.contains(q) {
                    let x = choose|x: int| 0 <= x < out@[p as int]@.len() && out@[p as int]@[x] == q;
                    assert(out[p as int][x] < n);
                }
            }
        }
        assert forall|a: Seq<char>, b: Seq<char>| #[trigger]
            es.contains((a, b)) implies exists|p: usize, q: usize| #[trigger]
            ix.contains((p, q)) && p < n && q < n && keys[p as int] == a && keys[q as int] == b by {
            assert(transitions@.contains_key(a));
            assert(keys.to_set().contains(a));
            assert(keys.to_set().contains(b));
            let p = choose|p: int| 0 <= p < keys.len() && keys[p] == a;
            let q = choose|q: int| 0 <= q < keys.len() && keys[q] == b;
            assert(ix.contains((p as usize, q as usize)));
        }
    }
    out
}

/// The states that lead to `done`, and `done` itself.
fn finishing_states(transitions: &StrMap<Vec<String>>, done: &str) -> (r: StrSet)
    ensures
        forall|k: Seq<char>| #[trigger] r@.contains(k) <==> can_finish(transitions@, k, done@),
{
    let names = all_states(transitions, done);
    let adj = step_places(&names, transitions);
    let back = graph::dependents(&adj);
    let n = names.len();
    let ghost keys = names.members();
    let ghost es = steps(transitions@);
    let ghost ix = reach::adjacency(adj.deep_view());
    let ghost xi = reach::adjacency(back.deep_view());
    let mut out = StrSet::new();
    let _ = out.insert(String::from_str(done));
    if let Some(start) = names.index_of(done) {
        let reached = reach::reachable(&back, start);
        proof {
            assert forall|m: int| 0 <= m < n implies (#[trigger] reached[m] <==> reach::reaches(
                es,
                keys[m],
                done@,
            )) by {
                assert(reached[(m as usize) as int] <==> reach::reaches(xi, start, m as usize));
                reach::lemma_flipped_reaches(ix, m as usize, start);
                reach::lemma_names_reaches(ix, keys, es, m as usize, start);
            }
        }
        let mut i: usize = 0;
        while i < n
            invariant
                i <= n,
                n == keys.len(),
                n == reached.len(),
                keys == names.members(),
                es == steps(transitions@),
                forall|m: int|
                    0 <= m < n ==> (#[trigger] reached[m] <==> reach::reaches(es, keys[m], done@)),
                forall|k: Seq<char>| #[trigger]
                    out@.contains(k) <==> k == done@ || (keys.take(i as int).contains(k)
                        && reach::reaches(es, k, done@)),
            decreases n - i,
        {
            let ghost had = out@;
            if reached[i] {
                let _ = out.insert(names.at(i).clone());
            }
            proof {
                assert forall|k: Seq<char>| #[trigger] out@.contains(k) <==> k == done@ || (
                keys.take(i as int + 1).contains(k) && reach::reaches(es, k, done@)) by {
                    strmap::lemma_take_one_more(keys, i as int, k);
                    assert(had.contains(k) <==> k == done@ || (keys.take(i as int).contains(k)
                        && reach::reaches(es, k, done@)));
                }
            }
            i += 1;
        }
        proof {
            assert(keys.take(n as int) =~= keys);
            assert forall|k: Seq<char>| #[trigger] out@.contains(k) <==> can_finish(
                transitions@,
                k,
                done@,
            ) by {
                if reach::reaches(es, k, done@) {
                    reach::lemma_first_edge(es, k, done@);
                    let c = choose|c: Seq<char>| #[trigger]
                        es.contains((k, c)) && (c == done@ || reach::reaches(es, c, done@));
                    assert(transitions@.contains_key(k));
                    assert(keys.to_set().contains(k));
                    assert(keys.contains(k));
                }
            }
        }
    }
    out
}

impl Config {
    /// The problems of a status from which `done` cannot be reached.
    fn collect_reachability_problems(
        ctx: &str,
        values: &Vec<String>,
        transitions: &StrMap<Vec<String>>,
        done: &str,
    ) -> (r: Vec<String>)
        ensures
            r.deep_view() == reachability_problems(
                ctx@,
                transitions@,
                values.deep_view(),
                done@,
            ),
    {
        if !crate::engine::contains_text(values, done) {
            let m = text::cat6(
                ctx,
                ".transitions: `[workflow] done_status` is `",
                done,
                "`, which is not one of the declared values (",
                text::join(values, ", ").as_str(),
                ") - no task of this type could ever be done",
            );
            return text::list_if(true, m);
        }
        let finishing = finishing_states(transitions, done);
        let ghost all = values.deep_view();
        let mut lost: Vec<String> = Vec::new();
        let mut i: usize = 0;
        assert(all.take(0) =~= Seq::empty());
        assert(lost.deep_view() =~= Seq::empty());
        while i < values.len()
            invariant
                i <= values.len(),
                all == values.deep_view(),
                forall|k: Seq<char>| #[trigger]
                    finishing@.contains(k) <==> can_finish(transitions@, k, done@),
                lost.deep_view() == stranded(transitions@, all.take(i as int), done@),
            decreases values.len() - i,
        {
            let ghost longer = all.take(i as int + 1);
            assert(longer.drop_last() =~= all.take(i as int));
            assert(longer.last() == values@[i as int]@);
            if !finishing.contains(values[i].as_str()) {
                let ghost had = lost.deep_view();
                lost.push(values[i].clone());
                assert(lost.deep_view() =~= had.push(values@[i as int]@));
            }
            i += 1;
        }
        assert(all.take(values.len() as int) =~= all);
        let shown = text::join(&tick_all(&lost), ", ");
        let m = text::cat6(
            ctx,
            ".transitions: state(s) ",
            shown.as_str(),
            " cannot reach `",
            done,
            "` - a task in them could never be done",
        );
        text::list_if(lost.len() > 0, m)
    }

    /// The problems of a field's state machine.
    fn collect_transitions_problems(
        ctx: &str,
        schema: &FieldSchema,
        kind: &FieldKind,
        done: Option<&String>,
    ) -> (r: Vec<String>)
        ensures
            r.deep_view() == transitions_problems(
                ctx@,
                schema.deep_view(),
                *kind,
                match done {
                    Some(d) => Some(d@),
                    None => None,
                },
            ),
    {
        let transitions = match schema.transitions() {
            Some(t) => t,
            None => {
                return no_texts();
            },
        };
        let scalar = match kind {
            FieldKind::Enum => true,
            _ => false,
        };
        if !scalar {
            return text::list_if(
                true,
                misplaced_text(
                    ctx,
                    "`transitions` only applies to the scalar enum kind",
                    schema.kind_str(),
                ),
            );
        }
        let values = schema.values();
        if values.len() == 0 {
            return no_texts();
        }
        let mut out = check_states(ctx, transitions, &values);
        text::extend(&mut out, check_totality(ctx, transitions, &values));
        let more = match done {
            Some(d) => Config::collect_reachability_problems(
                ctx,
                &values,
                transitions,
                d.as_str(),
            ),
            None => no_texts(),
        };
        text::extend(&mut out, more);
        out
    }
}

/// The names of the relationship types and of their other directions.
pub open spec fn relationship_name_set(types: TypesV) -> Set<Seq<char>> {
    Set::new(
        |n: Seq<char>|
            types.contains_key(n) || (n.len() > 0 && exists|t: Seq<char>| #[trigger]
                types.contains_key(t) && types[t].inverse == n),
    )
}

/// What is wrong with a field's name, if anything.
pub open spec fn field_name_problems(
    cfg: Config,
    ctx: Seq<char>,
    field: Seq<char>,
) -> Seq<Seq<char>> {
    let ts = cfg.timestamps;
    let w = cfg.workflow;
    if model::reserved_keys().contains(field) {
        seq![ctx + ": reserved/computed field name"@]
    } else if relationship_name_set(cfg.relationships.types@).contains(field) {
        seq![ctx + ": collides with a relationship type or inverse name"@]
    } else if field.len() > 0 && (field == ts.create_time@ || field == ts.update_time@ || field
        == ts.close_time@) {
        seq![ctx + ": collides with a computed timestamp column"@]
    } else if field == w.type_field@ || field == TASK_TYPE_KEY@ {
        seq![ctx + ": the task-type discriminator is implicit - don't declare it"@]
    } else if field == STATUS_KEY@ && w.status_field@ != STATUS_KEY@ {
        seq![ctx + ": declare the status under its display name `"@ + w.status_field@ + "`"@]
    } else {
        Seq::empty()
    }
}

/// The problems of a declared field's kind and what goes with it.
pub open spec fn field_kind_problems(
    cfg: Config,
    ctx: Seq<char>,
    field: Seq<char>,
    schema: FieldSchemaV,
) -> Seq<Seq<char>> {
    match kind_of(schema.kind()) {
        Err(reason) => seq![ctx + ": "@ + reason],
        Ok(kind) => {
            let is_enum = kind.base_kind() is Enum;
            let w = cfg.workflow;
            (if is_enum && schema.values().len() == 0 {
                seq![ctx + ": an enum kind needs a non-empty `values` list"@]
            } else if !is_enum && schema.values().len() > 0 {
                seq![misplaced(ctx, "`values` only applies to enum kinds"@, schema.kind())]
            } else {
                Seq::empty()
            }) + (match schema {
                FieldSchemaV::Full(spec) => field_spec_problems(ctx, spec, kind),
                FieldSchemaV::Short(_) => Seq::empty(),
            }) + transitions_problems(
                ctx,
                schema,
                kind,
                if field == w.status_field@ && w.done_status@.len() > 0 {
                    Some(w.done_status@)
                } else {
                    None
                },
            )
        },
    }
}

/// The problems of the fields `names` of one task type.
pub open spec fn fields_problems(
    cfg: Config,
    of_type: Seq<char>,
    fields: Map<Seq<char>, FieldSchemaV>,
    names: Seq<Seq<char>>,
) -> Seq<Seq<char>>
    decreases names.len(),
{
    if names.len() == 0 {
        Seq::empty()
    } else {
        let field = names.last();
        let ctx = "task_types."@ + of_type + ".fields."@ + field;
        fields_problems(cfg, of_type, fields, names.drop_last()) + field_name_problems(
            cfg,
            ctx,
            field,
        ) + field_kind_problems(cfg, ctx, field, fields[field])
    }
}

/// The problems of the task types `names`.
pub open spec fn types_problems(cfg: Config, names: Seq<Seq<char>>) -> Seq<Seq<char>>
    decreases names.len(),
{
    if names.len() == 0 {
        Seq::empty()
    } else {
        let fields = cfg.task_types.types@[names.last()].fields;
        types_problems(cfg, names.drop_last()) + fields_problems(
            cfg,
            names.last(),
            fields,
            strmap::sorted_of(fields.dom()),
        )
    }
}

/// The names that configured things are claimed for, each with its role.
pub type ClaimV = (Seq<char>, Seq<char>);

/// The claims of the relationship types `names`: each its own name, and that of
/// its other direction unless that is a type's name.
pub open spec fn type_claims(types: TypesV, names: Seq<Seq<char>>) -> Seq<ClaimV>
    decreases names.len(),
{
    if names.len() == 0 {
        Seq::empty()
    } else {
        let name = names.last();
        let inverse = types[name].inverse;
        let own = type_claims(types, names.drop_last()).push(
            (name, "relationship type `"@ + name + "`"@),
        );
        if inverse.len() > 0 && inverse != name && !types.contains_key(inverse) {
            own.push((inverse, "the inverse of relationship `"@ + name + "`"@))
        } else {
            own
        }
    }
}

/// A claim, unless the name is the one that is meant anyway.
pub open spec fn claim_unless(name: Seq<char>, same: Seq<char>, role: Seq<char>) -> Seq<ClaimV> {
    if name != same {
        seq![(name, role)]
    } else {
        Seq::empty()
    }
}

/// All claims of a configuration, in order.
pub open spec fn all_claims(cfg: Config) -> Seq<ClaimV> {
    let types = cfg.relationships.types@;
    seq![
        (STATUS_KEY@, "the status storage key"@),
        (TASK_TYPE_KEY@, "the task-type storage key"@),
    ] + claim_unless(cfg.workflow.status_field@, STATUS_KEY@, "workflow.status_field"@)
        + claim_unless(cfg.workflow.type_field@, TASK_TYPE_KEY@, "workflow.type_field"@) + seq![
        (cfg.timestamps.create_time@, "timestamps.create_time"@),
        (cfg.timestamps.update_time@, "timestamps.update_time"@),
        (cfg.timestamps.close_time@, "timestamps.close_time"@),
    ] + type_claims(types, strmap::sorted_of(types.dom()))
}

/// Who holds which name after `claims`. The first to claim a name that is
/// neither empty nor reserved gets it.
pub open spec fn holders(claims: Seq<ClaimV>) -> Map<Seq<char>, Seq<char>>
    decreases claims.len(),
{
    if claims.len() == 0 {
        Map::empty()
    } else {
        let rest = holders(claims.drop_last());
        let (name, role) = claims.last();
        if name.len() == 0 || model::reserved_keys().contains(name) || rest.contains_key(name) {
            rest
        } else {
            rest.insert(name, role)
        }
    }
}

/// The problems of `claims`: a name that is reserved or taken.
pub open spec fn claim_problems(claims: Seq<ClaimV>) -> Seq<Seq<char>>
    decreases claims.len(),
{
    if claims.len() == 0 {
        Seq::empty()
    } else {
        let rest = claim_problems(claims.drop_last());
        let held = holders(claims.drop_last());
        let (name, role) = claims.last();
        if name.len() == 0 {
            rest
        } else if model::reserved_keys().contains(name) {
            rest.push(role + " `"@ + name + "` collides with a reserved/computed field name"@)
        } else if held.contains_key(name) {
            rest.push("`"@ + name + "` is used by both "@ + held[name] + " and "@ + role)
        } else {
            rest
        }
    }
}

/// The problems of types whose other direction has the name of another type.
pub open spec fn inverse_problems(types: TypesV, names: Seq<Seq<char>>) -> Seq<Seq<char>>
    decreases names.len(),
{
    if names.len() == 0 {
        Seq::empty()
    } else {
        let name = names.last();
        let inverse = types[name].inverse;
        inverse_problems(types, names.drop_last()) + text::listed(
            inverse.len() > 0 && inverse != name && types.contains_key(inverse),
            "relationship `"@ + name + "` has inverse `"@ + inverse
                + "`, which is also a declared type - ambiguous (use a distinct inverse name, or set inverse = \""@
                + name + "\" to make it symmetric)"@,
        )
    }
}

/// The problems of names that more than one thing is called by.
pub open spec fn name_problems(cfg: Config) -> Seq<Seq<char>> {
    let types = cfg.relationships.types@;
    claim_problems(all_claims(cfg)) + inverse_problems(types, strmap::sorted_of(types.dom()))
}

/// The problems that show without looking at any task.
pub open spec fn struct_problems(cfg: Config) -> Seq<Seq<char>> {
    text::listed(
        cfg.compaction.keep_events < MIN_KEEP_EVENTS,
        "compaction.keep_events = "@ + text::decimal(cfg.compaction.keep_events as nat)
            + " is below the minimum of "@ + text::decimal(MIN_KEEP_EVENTS as nat)
            + ". Retaining fewer events risks discarding history still needed to reconcile merges."@,
    ) + text::listed(
        forall|m: Seq<char>| #[trigger]
            cfg.relationships.types@.contains_key(m) ==> cfg.relationships.types@[m].kind
                != RelKind::Blocker,
        "[relationships] declares no `kind = \"blocker\"` type. At least one blocking dependency type is required (the default config declares `depends_on`)."@,
    ) + text::listed(
        cfg.workflow.status_field@.len() == 0,
        "workflow.status_field must not be empty"@,
    ) + text::listed(
        cfg.workflow.type_field@.len() == 0,
        "workflow.type_field must not be empty"@,
    ) + name_problems(cfg) + types_problems(cfg, strmap::sorted_of(cfg.task_types.types@.dom()))
}

proof fn lemma_holders(claims: Seq<ClaimV>)
    requires
        claim_problems(claims).len() == 0,
    ensures
        forall|i: int|
            0 <= i < claims.len() && (#[trigger] claims[i]).0.len() > 0 ==> holders(
                claims,
            ).contains_key(claims[i].0) && !model::reserved_keys().contains(claims[i].0),
        forall|i: int, j: int|
            0 <= i < j < claims.len() && (#[trigger] claims[i]).0.len() > 0 ==> claims[i].0
                != (#[trigger] claims[j]).0,
    decreases claims.len(),
{
    if claims.len() > 0 {
        let rest = claims.drop_last();
        lemma_holders(rest);
        assert forall|i: int| 0 <= i < claims.len() && (#[trigger] claims[i]).0.len()
            > 0 implies holders(claims).contains_key(claims[i].0) && !model::reserved_keys().contains(
            claims[i].0,
        ) by {
            if i < rest.len() {
                assert(rest[i] == claims[i]);
            }
        }
        assert forall|i: int, j: int|
            0 <= i < j < claims.len() && (#[trigger] claims[i]).0.len() > 0 implies claims[i].0
            != (#[trigger] claims[j]).0 by {
            assert(rest[i] == claims[i]);
            if j < rest.len() {
                assert(rest[j] == claims[j]);
            }
        }
    }
}

/// A configuration without name problems uses each name for one thing: no claim
/// is for a reserved name, and no two claims are for the same name.
pub proof fn names_are_used_once(cfg: Config, i: int, j: int)
    requires
        name_problems(cfg).len() == 0,
        0 <= i < j < all_claims(cfg).len(),
        all_claims(cfg)[i].0.len() > 0,
    ensures
        all_claims(cfg)[i].0 != all_claims(cfg)[j].0,
        !model::reserved_keys().contains(all_claims(cfg)[i].0),
{
    lemma_holders(all_claims(cfg));
}

fn claim_list(cfg: &Config) -> (r: Vec<(String, String)>)
    ensures
        r.deep_view() == all_claims(*cfg),
{
    let types = &cfg.relationships.types;
    let mut out: Vec<(String, String)> = Vec::new();
    out.push((String::from_str(STATUS_KEY), String::from_str("the status storage key")));
    out.push((String::from_str(TASK_TYPE_KEY), String::from_str("the task-type storage key")));
    if !text::same_text(cfg.workflow.status_field.as_str(), STATUS_KEY) {
        out.push((cfg.workflow.status_field.clone(), String::from_str("workflow.status_field")));
    }
    if !text::same_text(cfg.workflow.type_field.as_str(), TASK_TYPE_KEY) {
        out.push((cfg.workflow.type_field.clone(), String::from_str("workflow.type_field")));
    }
    let ghost head = out.deep_view();
    assert(head =~= seq![
        (STATUS_KEY@, "the status storage key"@),
        (TASK_TYPE_KEY@, "the task-type storage key"@),
    ] + claim_unless(cfg.workflow.status_field@, STATUS_KEY@, "workflow.status_field"@)
        + claim_unless(cfg.workflow.type_field@, TASK_TYPE_KEY@, "workflow.type_field"@));
    out.push((cfg.timestamps.create_time.clone(), String::from_str("timestamps.create_time")));
    out.push((cfg.timestamps.update_time.clone(), String::from_str("timestamps.update_time")));
    out.push((cfg.timestamps.close_time.clone(), String::from_str("timestamps.close_time")));
    let ghost base = head + seq![
        (cfg.timestamps.create_time@, "timestamps.create_time"@),
        (cfg.timestamps.update_time@, "timestamps.update_time"@),
        (cfg.timestamps.close_time@, "timestamps.close_time"@),
    ];
    assert(out.deep_view() =~= base);
    let n = types.len();
    let ghost keys = types.keys_view();
    let mut i: usize = 0;
    assert(base + type_claims(types@, keys.take(0)) =~= base);
    while i < n
        invariant
            i <= n,
            n == keys.len(),
            types == cfg.relationships.types,
            keys == types.keys_view(),
            out.deep_view() == base + type_claims(types@, keys.take(i as int)),
        decreases n - i,
    {
        let name = types.key_at(i);
        let def = types.value_at(i);
        let ghost longer = keys.take(i as int + 1);
        assert(longer.drop_last() =~= keys.take(i as int));
        assert(longer.last() == name@);
        let ghost before = type_claims(types@, keys.take(i as int));
        let role = text::cat3("relationship type `", name.as_str(), "`");
        let ghost first = (name@, role@);
        let ghost was = out.deep_view();
        out.push((name.clone(), role));
        assert(out.deep_view() =~= was.push(first));
        assert(was.push(first) =~= base + before.push(first));
        let inverse = def.inverse.as_str();
        if !inverse.is_empty() && !text::same_text(inverse, name.as_str()) && !types.contains_key(
            inverse,
        ) {
            let role = text::cat3("the inverse of relationship `", name.as_str(), "`");
            let ghost second = (inverse@, role@);
            let ghost was = out.deep_view();
            out.push((def.inverse.clone(), role));
            assert(out.deep_view() =~= was.push(second));
            assert(was.push(second) =~= base + before.push(first).push(second));
        }
        i += 1;
    }
    assert(keys.take(n as int) =~= keys);
    out
}

fn check_claims(claims: &Vec<(String, String)>) -> (r: Vec<String>)
    ensures
        r.deep_view() == claim_problems(claims.deep_view()),
{
    let ghost all = claims.deep_view();
    let mut held: StrMap<String> = StrMap::new();
    let mut out = no_texts();
    let mut i: usize = 0;
    assert(all.take(0) =~= Seq::empty());
    while i < claims.len()
        invariant
            i <= claims.len(),
            all == claims.deep_view(),
            held@ == holders(all.take(i as int)),
            out.deep_view() == claim_problems(all.take(i as int)),
        decreases claims.len() - i,
    {
        let name = claims[i].0.as_str();
        let role = claims[i].1.as_str();
        let ghost longer = all.take(i as int + 1);
        assert(longer.drop_last() =~= all.take(i as int));
        assert(longer.last() == (name@, role@));
        let ghost had = out.deep_view();
        if !name.is_empty() {
            if model::is_reserved(name) {
                let mut m = text::cat3(role, " `", name);
                m.append("` collides with a reserved/computed field name");
                out.push(m);
                assert(out.deep_view() =~= had.push(m@));
            } else if let Some(prev) = held.get(name) {
                let m = text::cat6("`", name, "` is used by both ", prev.as_str(), " and ", role);
                out.push(m);
                assert(out.deep_view() =~= had.push(m@));
            } else {
                held.insert(claims[i].0.clone(), claims[i].1.clone());
            }
        }
        i += 1;
    }
    assert(all.take(claims.len() as int) =~= all);
    out
}

fn check_inverses(types: &StrMap<RelationshipDef>) -> (r: Vec<String>)
    ensures
        r.deep_view() == inverse_problems(types@, strmap::sorted_of(types@.dom())),
{
    let n = types.len();
    let ghost keys = types.keys_view();
    let mut out = no_texts();
    let mut i: usize = 0;
    assert(keys.take(0) =~= Seq::empty());
    while i < n
        invariant
            i <= n,
            n == keys.len(),
            keys == types.keys_view(),
            out.deep_view() == inverse_problems(types@, keys.take(i as int)),
        decreases n - i,
    {
        let name = types.key_at(i);
        let inverse = types.value_at(i).inverse.as_str();
        let ghost longer = keys.take(i as int + 1);
        assert(longer.drop_last() =~= keys.take(i as int));
        assert(longer.last() == name@);
        let m = text::cat7(
            "relationship `",
            name.as_str(),
            "` has inverse `",
            inverse,
            "`, which is also a declared type - ambiguous (use a distinct inverse name, or set inverse = \"",
            name.as_str(),
            "\" to make it symmetric)",
        );
        text::extend(
            &mut out,
            text::list_if(
                !inverse.is_empty() && !text::same_text(inverse, name.as_str())
                    && types.contains_key(inverse),
                m,
            ),
        );
        i += 1;
    }
    assert(keys.take(n as int) =~= keys);
    out
}

impl Config {
    /// The problems of names that more than one thing is called by.
    fn collect_name_collision_problems(&self) -> (r: Vec<String>)
        ensures
            r.deep_view() == name_problems(*self),
    {
        let mut out = check_claims(&claim_list(self));
        text::extend(&mut out, check_inverses(&self.relationships.types));
        out
    }

    /// The names of the relationship types and of their other directions.
    fn relationship_names(&self) -> (r: StrSet)
        ensures
            r@ == relationship_name_set(self.relationships.types@),
    {
        let types = &self.relationships.types;
        let n = types.len();
        let ghost keys = types.keys_view();
        let mut out = StrSet::new();
        let mut i: usize = 0;
        while i < n
            invariant
                i <= n,
                n == keys.len(),
                types == self.relationships.types,
                keys == types.keys_view(),
                keys.to_set() == types@.dom(),
                forall|k: Seq<char>| #[trigger]
                    out@.contains(k) <==> keys.take(i as int).contains(k) || (k.len() > 0
                        && exists|t: Seq<char>| #[trigger]
                        keys.take(i as int).contains(t) && types@[t].inverse == k),
            decreases n - i,
        {
            let name = types.key_at(i);
            let inverse = &types.value_at(i).inverse;
            let ghost had = out@;
            let _ = out.insert(name.clone());
            if !inverse.as_str().is_empty() {
                let _ = out.insert(inverse.clone());
            }
            proof {
                let shorter = keys.take(i as int);
                let longer = keys.take(i as int + 1);
                assert forall|k: Seq<char>| #[trigger] longer.contains(k) <==> shorter.contains(k)
                    || k == name@ by {
                    strmap::lemma_take_one_more(keys, i as int, k);
                }
                assert forall|k: Seq<char>| #[trigger] out@.contains(k) <==> longer.contains(k) || (
                k.len() > 0 && exists|t: Seq<char>| #[trigger]
                    longer.contains(t) && types@[t].inverse == k) by {
                    assert(had.contains(k) <==> shorter.contains(k) || (k.len() > 0
                        && exists|t: Seq<char>| #[trigger]
                        shorter.contains(t) && types@[t].inverse == k));
                    if exists|t: Seq<char>| #[trigger]
                        shorter.contains(t) && types@[t].inverse == k {
                        let t = choose|t: Seq<char>| #[trigger]
                            shorter.contains(t) && types@[t].inverse == k;
                        assert(longer.contains(t));
                    }
                    if exists|t: Seq<char>| #[trigger]
                        longer.contains(t) && types@[t].inverse == k {
                        let t = choose|t: Seq<char>| #[trigger]
                            longer.contains(t) && types@[t].inverse == k;
                        if t != name@ {
                            assert(shorter.contains(t));
                        }
                    }
                    assert(longer.contains(name@));
                }
            }
            i += 1;
        }
        proof {
            assert(keys.take(n as int) =~= keys);
            assert forall|k: Seq<char>| keys.contains(k) <==> #[trigger] types@.contains_key(k) by {
                assert(keys.to_set().contains(k) == keys.contains(k));
            }
            assert forall|k: Seq<char>| out@.contains(k) <==> relationship_name_set(
                types@,
            ).contains(k) by {
                assert(out@.contains(k) <==> keys.contains(k) || (k.len() > 0
                    && exists|t: Seq<char>| #[trigger]
                    keys.contains(t) && types@[t].inverse == k));
                if exists|t: Seq<char>| #[trigger] types@.contains_key(t) && types@[t].inverse == k {
                    let t = choose|t: Seq<char>| #[trigger]
                        types@.contains_key(t) && types@[t].inverse == k;
                    assert(keys.contains(t));
                }
                if exists|t: Seq<char>| #[trigger] keys.contains(t) && types@[t].inverse == k {
                    let t = choose|t: Seq<char>| #[trigger]
                        keys.contains(t) && types@[t].inverse == k;
                    assert(types@.contains_key(t));
                }
            }
            assert(out@ =~= relationship_name_set(types@));
        }
        out
    }
}

/// The relationship types that tasks use but that are not declared.
pub open spec fn undeclared_types(s: StateV, types: TypesV) -> Set<Seq<char>> {
    Set::new(
        |rel: Seq<char>|
            !types.contains_key(rel) && exists|id: Seq<char>| #[trigger]
                s.contains_key(id) && s[id].relationships.contains_key(rel),
    )
}

/// The tasks that use a relationship type.
pub open spec fn users_of(s: StateV, rel: Seq<char>) -> Set<Seq<char>> {
    Set::new(|id: Seq<char>| s.contains_key(id) && s[id].relationships.contains_key(rel))
}

/// The problem of a relationship type that is used but not declared.
pub open spec fn undeclared_message(s: StateV, rel: Seq<char>) -> Seq<char> {
    let who = strmap::sorted_of(users_of(s, rel));
    "relationship type `"@ + rel + "` is used by "@ + text::decimal(who.len()) + " task(s) ("@
        + text::joined(who, ", "@) + ") but is not declared in [relationships]"@
}

/// The problem of a cycle.
pub open spec fn cycle_problem(cycle: Seq<Seq<char>>) -> Seq<char> {
    "blocker dependency cycle: "@ + (if cycle.len() == 1 {
        cycle[0] + " (depends on itself)"@
    } else {
        text::joined(cycle, " <-> "@)
    })
}

/// The problem of two blocker edges between two tasks.
pub open spec fn double_problem(d: graph::DoubleV) -> Seq<char> {
    "`"@ + d.0 + "` has more than one blocking relationship to `"@ + d.1 + "` ("@ + text::joined(
        d.2,
        ", "@,
    ) + "); only one is allowed between two tasks"@
}

/// The problem of a task with two parents.
pub open spec fn parents_problem(p: (Seq<char>, Seq<Seq<char>>)) -> Seq<char> {
    "`"@ + p.0 + "` is a subtask of multiple parents ("@ + text::joined(p.1, ", "@)
        + "); a task can have only one parent"@
}

/// The problems of a configuration with the tasks there are.
pub open spec fn graph_problems(cfg: Config, s: StateV) -> Seq<Seq<char>> {
    let types = cfg.relationships.types@;
    strmap::sorted_of(undeclared_types(s, types)).map_values(
        |rel: Seq<char>| undeclared_message(s, rel),
    ) + graph::cycle_list(s, gating_types(types)).map_values(
        |c: Seq<Seq<char>>| cycle_problem(c),
    ) + graph::doubles(s, gating_types(types), strmap::sorted_of(s.dom())).map_values(
        |d: graph::DoubleV| double_problem(d),
    ) + graph::many_parents(s, subtask_types(types)).map_values(
        |p: (Seq<char>, Seq<Seq<char>>)| parents_problem(p),
    )
}

/// The answer to a configuration with problems.
pub open spec fn failure_message(problems: Seq<Seq<char>>) -> Seq<char> {
    "config validation failed ("@ + text::decimal(problems.len()) + " problem(s)):"@ + bulleted(
        problems,
    )
}

/// Each text on a line of its own behind a dash.
pub open spec fn bulleted(texts: Seq<Seq<char>>) -> Seq<char>
    decreases texts.len(),
{
    if texts.len() == 0 {
        Seq::empty()
    } else {
        bulleted(texts.drop_last()) + "\n  - "@ + texts.last()
    }
}

fn undeclared_set(state: &StrMap<TaskState>, types: &StrMap<RelationshipDef>) -> (r: StrSet)
    ensures
        r@ == undeclared_types(state@, types@),
{
    let n = state.len();
    let ghost keys = state.keys_view();
    let ghost s = state@;
    let mut out = StrSet::new();
    let mut i: usize = 0;
    while i < n
        invariant
            i <= n,
            n == keys.len(),
            keys == state.keys_view(),
            s == state@,
            keys.to_set() == s.dom(),
            forall|rel: Seq<char>| #[trigger]
                out@.contains(rel) <==> !types@.contains_key(rel) && exists|k: int|
                    0 <= k < i && s[#[trigger] keys[k]].relationships.contains_key(rel),
        decreases n - i,
    {
        let task = state.value_at(i);
        let m = task.relationships.len();
        let ghost rels = task.relationships.keys_view();
        let ghost before = out@;
        let mut j: usize = 0;
        while j < m
            invariant
                j <= m,
                m == rels.len(),
                rels == task.relationships.keys_view(),
                rels.to_set() == task@.relationships.dom(),
                forall|rel: Seq<char>| #[trigger]
                    out@.contains(rel) <==> before.contains(rel) || (!types@.contains_key(rel)
                        && rels.take(j as int).contains(rel)),
            decreases m - j,
        {
            let rel = task.relationships.key_at(j);
            let ghost had = out@;
            if !types.contains_key(rel.as_str()) {
                let _ = out.insert(rel.clone());
            }
            proof {
                assert forall|k: Seq<char>| #[trigger] out@.contains(k) <==> before.contains(k) || (
                !types@.contains_key(k) && rels.take(j as int + 1).contains(k)) by {
                    strmap::lemma_take_one_more(rels, j as int, k);
                    assert(had.contains(k) <==> before.contains(k) || (!types@.contains_key(k)
                        && rels.take(j as int).contains(k)));
                }
            }
            j += 1;
        }
        proof {
            assert(rels.take(m as int) =~= rels);
            assert forall|rel: Seq<char>| #[trigger] out@.contains(rel) <==> !types@.contains_key(
                rel,
            ) && exists|k: int|
                0 <= k < i + 1 && s[#[trigger] keys[k]].relationships.contains_key(rel) by {
                assert(rels.to_set().contains(rel) == rels.contains(rel));
                assert(s[keys[i as int]] == task@);
                if before.contains(rel) {
                    let k = choose|k: int|
                        0 <= k < i && s[#[trigger] keys[k]].relationships.contains_key(rel);
                    assert(s[keys[k]].relationships.contains_key(rel));
                }
                if !types@.contains_key(rel) && exists|k: int|
                    0 <= k < i + 1 && s[#[trigger] keys[k]].relationships.contains_key(rel) {
                    let k = choose|k: int|
                        0 <= k < i + 1 && s[#[trigger] keys[k]].relationships.contains_key(rel);
                    if k < i {
                        assert(before.contains(rel));
                    }
                }
            }
        }
        i += 1;
    }
    proof {
        assert forall|rel: Seq<char>| #[trigger] out@.contains(rel) <==> undeclared_types(
            s,
            types@,
        ).contains(rel) by {
            if out@.contains(rel) {
                let k = choose|k: int|
                    0 <= k < n && s[#[trigger] keys[k]].relationships.contains_key(rel);
                assert(keys.contains(keys[k]));
                assert(keys.to_set().contains(keys[k]));
                assert(s.contains_key(keys[k]));
            }
            if undeclared_types(s, types@).contains(rel) {
                let id = choose|id: Seq<char>| #[trigger]
                    s.contains_key(id) && s[id].relationships.contains_key(rel);
                assert(keys.to_set().contains(id));
                let k = choose|k: int| 0 <= k < keys.len() && keys[k] == id;
                assert(s[keys[k]].relationships.contains_key(rel));
            }
        }
        assert(out@ =~= undeclared_types(s, types@));
    }
    out
}

fn users_set(state: &StrMap<TaskState>, rel: &str) -> (r: StrSet)
    ensures
        r@ == users_of(state@, rel@),
{
    let n = state.len();
    let ghost keys = state.keys_view();
    let ghost s = state@;
    let mut out = StrSet::new();
    let mut i: usize = 0;
    while i < n
        invariant
            i <= n,
            n == keys.len(),
            keys == state.keys_view(),
            s == state@,
            forall|id: Seq<char>| #[trigger]
                out@.contains(id) <==> keys.take(i as int).contains(id)
                    && s[id].relationships.contains_key(rel@),
        decreases n - i,
    {
        let ghost had = out@;
        if state.value_at(i).relationships.contains_key(rel) {
            let _ = out.insert(state.key_at(i).clone());
        }
        proof {
            assert forall|k: Seq<char>| #[trigger] out@.contains(k) <==> keys.take(
                i as int + 1,
            ).contains(k) && s[k].relationships.contains_key(rel@) by {
                strmap::lemma_take_one_more(keys, i as int, k);
                assert(had.contains(k) <==> keys.take(i as int).contains(k)
                    && s[k].relationships.contains_key(rel@));
            }
        }
        i += 1;
    }
    proof {
        assert(keys.take(n as int) =~= keys);
        assert forall|k: Seq<char>| out@.contains(k) <==> users_of(s, rel@).contains(k) by {
            assert(keys.to_set().contains(k) == keys.contains(k));
            assert(out@.contains(k) <==> keys.contains(k) && s[k].relationships.contains_key(rel@));
        }
        assert(out@ =~= users_of(s, rel@));
    }
    out
}

fn undeclared_text(state: &StrMap<TaskState>, rel: &str) -> (r: String)
    ensures
        r@ == undeclared_message(state@, rel@),
{
    let who = graph::members_of(&users_set(state, rel));
    text::cat7(
        "relationship type `",
        rel,
        "` is used by ",
        text::decimal_text(who.len() as u64).as_str(),
        " task(s) (",
        text::join(&who, ", ").as_str(),
        ") but is not declared in [relationships]",
    )
}

fn check_undeclared(state: &StrMap<TaskState>, types: &StrMap<RelationshipDef>) -> (r: Vec<String>)
    ensures
        r.deep_view() == strmap::sorted_of(undeclared_types(state@, types@)).map_values(
            |rel: Seq<char>| undeclared_message(state@, rel),
        ),
{
    let rels = graph::members_of(&undeclared_set(state, types));
    let ghost all = rels.deep_view();
    let mut out: Vec<String> = Vec::new();
    let mut i: usize = 0;
    while i < rels.len()
        invariant
            i <= rels.len(),
            all == rels.deep_view(),
            out.len() == i,
            forall|k: int|
                0 <= k < i ==> #[trigger] out@[k]@ == undeclared_message(state@, all[k]),
        decreases rels.len() - i,
    {
        out.push(undeclared_text(state, rels[i].as_str()));
        i += 1;
    }
    assert(out.deep_view() =~= all.map_values(|rel: Seq<char>| undeclared_message(state@, rel)));
    out
}

fn cycle_text(cycle: &Vec<String>) -> (r: String)
    ensures
        r@ == cycle_problem(cycle.deep_view()),
{
    if cycle.len() == 1 {
        text::cat2(
            "blocker dependency cycle: ",
            text::cat2(cycle[0].as_str(), " (depends on itself)").as_str(),
        )
    } else {
        text::cat2("blocker dependency cycle: ", text::join(cycle, " <-> ").as_str())
    }
}

fn check_cycles(cycles: &Vec<Vec<String>>) -> (r: Vec<String>)
    ensures
        r.deep_view() == cycles.deep_view().map_values(|c: Seq<Seq<char>>| cycle_problem(c)),
{
    let mut out: Vec<String> = Vec::new();
    let mut i: usize = 0;
    while i < cycles.len()
        invariant
            i <= cycles.len(),
            out.len() == i,
            forall|k: int|
                0 <= k < i ==> #[trigger] out@[k]@ == cycle_problem(cycles@[k].deep_view()),
        decreases cycles.len() - i,
    {
        out.push(cycle_text(&cycles[i]));
        i += 1;
    }
    assert(out.deep_view() =~= cycles.deep_view().map_values(
        |c: Seq<Seq<char>>| cycle_problem(c),
    ));
    out
}

fn check_doubles(doubles: &Vec<(String, String, Vec<String>)>) -> (r: Vec<String>)
    ensures
        r.deep_view() == doubles.deep_view().map_values(|d: graph::DoubleV| double_problem(d)),
{
    let mut out: Vec<String> = Vec::new();
    let mut i: usize = 0;
    while i < doubles.len()
        invariant
            i <= doubles.len(),
            out.len() == i,
            forall|k: int|
                0 <= k < i ==> #[trigger] out@[k]@ == double_problem(doubles@[k].deep_view()),
        decreases doubles.len() - i,
    {
        let d = &doubles[i];
        out.push(
            text::cat7(
                "`",
                d.0.as_str(),
                "` has more than one blocking relationship to `",
                d.1.as_str(),
                "` (",
                text::join(&d.2, ", ").as_str(),
                "); only one is allowed between two tasks",
            ),
        );
        i += 1;
    }
    assert(out.deep_view() =~= doubles.deep_view().map_values(
        |d: graph::DoubleV| double_problem(d),
    ));
    out
}

fn check_parents(parents: &Vec<(String, Vec<String>)>) -> (r: Vec<String>)
    ensures
        r.deep_view() == parents.deep_view().map_values(
            |p: (Seq<char>, Seq<Seq<char>>)| parents_problem(p),
        ),
{
    let mut out: Vec<String> = Vec::new();
    let mut i: usize = 0;
    while i < parents.len()
        invariant
            i <= parents.len(),
            out.len() == i,
            forall|k: int|
                0 <= k < i ==> #[trigger] out@[k]@ == parents_problem(parents@[k].deep_view()),
        decreases parents.len() - i,
    {
        let p = &parents[i];
        out.push(
            text::cat5(
                "`",
                p.0.as_str(),
                "` is a subtask of multiple parents (",
                text::join(&p.1, ", ").as_str(),
                "); a task can have only one parent",
            ),
        );
        i += 1;
    }
    assert(out.deep_view() =~= parents.deep_view().map_values(
        |p: (Seq<char>, Seq<Seq<char>>)| parents_problem(p),
    ));
    out
}

fn bullets(texts: &Vec<String>) -> (r: String)
    ensures
        r@ == bulleted(texts.deep_view()),
{
    let ghost all = texts.deep_view();
    let mut out = String::new();
    let mut i: usize = 0;
    assert(all.take(0) =~= Seq::empty());
    while i < texts.len()
        invariant
            i <= texts.len(),
            all == texts.deep_view(),
            out@ == bulleted(all.take(i as int)),
        decreases texts.len() - i,
    {
        let ghost longer = all.take(i as int + 1);
        assert(longer.drop_last() =~= all.take(i as int));
        assert(longer.last() == texts@[i as int]@);
        out.append("\n  - ");
        out.append(texts[i].as_str());
        i += 1;
    }
    assert(all.take(texts.len() as int) =~= all);
    out
}

impl Config {
    fn check_field_name(&self, ctx: &str, field: &str, rel_names: &StrSet) -> (r: Vec<String>)
        requires
            rel_names@ == relationship_name_set(self.relationships.types@),
        ensures
            r.deep_view() == field_name_problems(*self, ctx@, field@),
    {
        let ts = &self.timestamps;
        let w = &self.workflow;
        if model::is_reserved(field) {
            text::list_if(true, text::cat2(ctx, ": reserved/computed field name"))
        } else if rel_names.contains(field) {
            text::list_if(
                true,
                text::cat2(ctx, ": collides with a relationship type or inverse name"),
            )
        } else if !field.is_empty() && (text::same_text(field, ts.create_time.as_str())
            || text::same_text(field, ts.update_time.as_str()) || text::same_text(
            field,
            ts.close_time.as_str(),
        )) {
            text::list_if(true, text::cat2(ctx, ": collides with a computed timestamp column"))
        } else if text::same_text(field, w.type_field.as_str()) || text::same_text(
            field,
            TASK_TYPE_KEY,
        ) {
            text::list_if(
                true,
                text::cat2(ctx, ": the task-type discriminator is implicit - don't declare it"),
            )
        } else if text::same_text(field, STATUS_KEY) && !text::same_text(
            w.status_field.as_str(),
            STATUS_KEY,
        ) {
            let mut m = text::cat3(
                ctx,
                ": declare the status under its display name `",
                w.status_field.as_str(),
            );
            m.append("`");
            text::list_if(true, m)
        } else {
            no_texts()
        }
    }

    fn check_field_kind(&self, ctx: &str, field: &str, schema: &FieldSchema) -> (r: Vec<String>)
        ensures
            r.deep_view() == field_kind_problems(*self, ctx@, field@, schema.deep_view()),
    {
        let kind = match FieldKind::parse(schema.kind_str()) {
            Ok(k) => k,
            Err(reason) => {
                return text::list_if(true, text::cat3(ctx, ": ", reason.as_str()));
            },
        };
        let is_enum = match kind.base() {
            FieldKind::Enum => true,
            _ => false,
        };
        let w = &self.workflow;
        let values = schema.values();
        let mut out = if is_enum && values.len() == 0 {
            text::list_if(
                true,
                text::cat2(ctx, ": an enum kind needs a non-empty `values` list"),
            )
        } else if !is_enum && values.len() > 0 {
            text::list_if(
                true,
                misplaced_text(ctx, "`values` only applies to enum kinds", schema.kind_str()),
            )
        } else {
            no_texts()
        };
        let constraints = match schema.spec() {
            Some(spec) => Config::collect_field_spec_problems(ctx, spec, &kind, schema),
            None => no_texts(),
        };
        text::extend(&mut out, constraints);
        let done = if text::same_text(field, w.status_field.as_str())
            && !w.done_status.as_str().is_empty() {
            Some(&w.done_status)
        } else {
            None
        };
        text::extend(&mut out, Config::collect_transitions_problems(ctx, schema, &kind, done));
        out
    }

    /// The problems of the declared task types.
    fn collect_task_type_problems(&self) -> (r: Vec<String>)
        ensures
            r.deep_view() == types_problems(
                *self,
                strmap::sorted_of(self.task_types.types@.dom()),
            ),
    {
        let rel_names = self.relationship_names();
        let n = self.task_types.types.len();
        let ghost keys = self.task_types.types.keys_view();
        let mut out = no_texts();
        let mut i: usize = 0;
        assert(keys.take(0) =~= Seq::empty());
        while i < n
            invariant
                i <= n,
                n == keys.len(),
                keys == self.task_types.types.keys_view(),
                rel_names@ == relationship_name_set(self.relationships.types@),
                out.deep_view() == types_problems(*self, keys.take(i as int)),
            decreases n - i,
        {
            let of_type = self.task_types.types.key_at(i);
            let def = self.task_types.types.value_at(i);
            let ghost longer = keys.take(i as int + 1);
            assert(longer.drop_last() =~= keys.take(i as int));
            assert(longer.last() == of_type@);
            let m = def.fields.len();
            let ghost names = def.fields.keys_view();
            let ghost fields = def.fields@;
            let mut found = no_texts();
            let mut j: usize = 0;
            assert(names.take(0) =~= Seq::empty());
            while j < m
                invariant
                    j <= m,
                    m == names.len(),
                    names == def.fields.keys_view(),
                    fields == def.fields@,
                    rel_names@ == relationship_name_set(self.relationships.types@),
                    found.deep_view() == fields_problems(
                        *self,
                        of_type@,
                        fields,
                        names.take(j as int),
                    ),
                decreases m - j,
            {
                let field = def.fields.key_at(j);
                let schema = def.fields.value_at(j);
                let ghost more = names.take(j as int + 1);
                assert(more.drop_last() =~= names.take(j as int));
                assert(more.last() == field@);
                let mut ctx = text::cat3("task_types.", of_type.as_str(), ".fields.");
                ctx.append(field.as_str());
                text::extend(
                    &mut found,
                    self.check_field_name(ctx.as_str(), field.as_str(), &rel_names),
                );
                text::extend(
                    &mut found,
                    self.check_field_kind(ctx.as_str(), field.as_str(), schema),
                );
                j += 1;
            }
            assert(names.take(m as int) =~= names);
            text::extend(&mut out, found);
            i += 1;
        }
        assert(keys.take(n as int) =~= keys);
        out
    }

    /// The problems of empty display names.
    fn collect_workflow_name_problems(&self) -> (r: Vec<String>)
        ensures
            r.deep_view() == text::listed(
                self.workflow.status_field@.len() == 0,
                "workflow.status_field must not be empty"@,
            ) + text::listed(
                self.workflow.type_field@.len() == 0,
                "workflow.type_field must not be empty"@,
            ),
    {
        let mut out = text::list_if(
            self.workflow.status_field.as_str().is_empty(),
            String::from_str("workflow.status_field must not be empty"),
        );
        text::extend(
            &mut out,
            text::list_if(
                self.workflow.type_field.as_str().is_empty(),
                String::from_str("workflow.type_field must not be empty"),
            ),
        );
        out
    }

    /// The problems that show without looking at any task.
    pub fn collect_struct_problems(&self) -> (r: Vec<String>)
        ensures
            r.deep_view() == struct_problems(*self),
    {
        let mut out = text::list_if(
            self.compaction.keep_events < MIN_KEEP_EVENTS,
            text::cat5(
                "compaction.keep_events = ",
                text::decimal_text(self.compaction.keep_events as u64).as_str(),
                " is below the minimum of ",
                text::decimal_text(MIN_KEEP_EVENTS as u64).as_str(),
                ". Retaining fewer events risks discarding history still needed to reconcile merges.",
            ),
        );
        text::extend(
            &mut out,
            text::list_if(
                self.relationships.default_blocker().is_none(),
                String::from_str(
                    "[relationships] declares no `kind = \"blocker\"` type. At least one blocking dependency type is required (the default config declares `depends_on`).",
                ),
            ),
        );
        let ghost first = out.deep_view();
        let names = self.collect_workflow_name_problems();
        text::extend(&mut out, names);
        proof {
            let a = text::listed(
                self.workflow.status_field@.len() == 0,
                "workflow.status_field must not be empty"@,
            );
            let b = text::listed(
                self.workflow.type_field@.len() == 0,
                "workflow.type_field must not be empty"@,
            );
            assert(first + (a + b) =~= first + a + b);
        }
        text::extend(&mut out, self.collect_name_collision_problems());
        text::extend(&mut out, self.collect_task_type_problems());
        out
    }

    /// The problems of the configuration with the tasks there are.
    pub fn collect_graph_problems(&self, state: &StrMap<TaskState>) -> (r: Vec<String>)
        ensures
            r.deep_view() == graph_problems(*self, state@),
            reach::cyclic(graph::dep_edges(state@, gating_types(self.relationships.types@)))
                ==> r.deep_view().len() > 0,
    {
        let mut out = check_undeclared(state, &self.relationships.types);
        let blockers = self.relationships.blocker_types();
        text::extend(&mut out, check_cycles(&graph::dependency_cycles(state, &blockers)));
        text::extend(&mut out, check_doubles(&graph::duplicate_blocker_edges(state, &blockers)));
        let hierarchy = self.relationships.hierarchy_types();
        text::extend(&mut out, check_parents(&graph::multi_parent_tasks(state, &hierarchy)));
        out
    }

    fn finish(problems: &Vec<String>) -> (r: Result<(), String>)
        ensures
            r is Ok <==> problems.deep_view().len() == 0,
            r matches Err(m) ==> m@ == failure_message(problems.deep_view()),
    {
        if problems.len() == 0 {
            return Ok(());
        }
        let mut m = text::cat3(
            "config validation failed (",
            text::decimal_text(problems.len() as u64).as_str(),
            " problem(s)):",
        );
        m.append(bullets(problems).as_str());
        Err(m)
    }

    /// Whether the configuration holds together in itself.
    pub fn validate(&self) -> (r: Result<(), String>)
        ensures
            r is Ok <==> struct_problems(*self).len() == 0,
            r matches Err(m) ==> m@ == failure_message(struct_problems(*self)),
    {
        Config::finish(&self.collect_struct_problems())
    }

    /// Whether the configuration holds together in itself and with the tasks
    /// there are.
    pub fn validate_against(&self, state: &StrMap<TaskState>) -> (r: Result<(), String>)
        ensures
            r is Ok <==> struct_problems(*self).len() == 0 && graph_problems(
                *self,
                state@,
            ).len() == 0,
            r matches Err(m) ==> m@ == failure_message(
                struct_problems(*self) + graph_problems(*self, state@),
            ),
            r is Ok ==> !reach::cyclic(
                graph::dep_edges(state@, gating_types(self.relationships.types@)),
            ),
    {
        let mut problems = self.collect_struct_problems();
        text::extend(&mut problems, self.collect_graph_problems(state));
        Config::finish(&problems)
    }
}

/// Whether a value keeps to the limits of a field: not below its least value nor
/// above its greatest, of a text that matches the pattern and is neither too
/// short nor too long, and of a list with neither too few nor too many items.
pub open spec fn keeps_limits(spec: FieldSpecV, v: JsonV) -> bool {
    &&& spec.min matches Some(b) ==> json::json_order(v, b) != text::Order::Less
    &&& spec.max matches Some(b) ==> json::json_order(v, b) != text::Order::Greater
    &&& v matches JsonV::Str(t) ==> {
        &&& spec.pattern matches Some(p) ==> pattern::regex_error(p) is Some
            || pattern::regex_matches(p, t)
        &&& spec.min_len matches Some(n) ==> t.len() >= n
        &&& spec.max_len matches Some(n) ==> t.len() <= n
    }
    &&& v matches JsonV::List(items) ==> {
        &&& spec.min_items matches Some(n) ==> items.len() >= n
        &&& spec.max_items matches Some(n) ==> items.len() <= n
    }
}

/// A value violates a field's limits exactly where it does not keep to them; a
/// field that is declared by its kind alone has none.
pub proof fn violations_are_limits_passed(spec: FieldSpecV, kind: Seq<char>, v: JsonV)
    ensures
        violations(FieldSchemaV::Full(spec), v).len() == 0 <==> keeps_limits(spec, v),
        violations(FieldSchemaV::Short(kind), v).len() == 0,
{
}

/// Which values fit which kind. Texts, booleans and numbers fit their own; a
/// whole number that is not negative fits `uint`, and `int` too up to its
/// greatest; a time and an enum value are texts; a list fits `array` where each
/// item fits, and `set` where besides none comes twice. Anything fits `any`.
pub proof fn kinds_take_values(kind: FieldKind, v: JsonV, values: Seq<Seq<char>>)
    ensures
        fits_kind(FieldKind::Any, v, values),
        fits_kind(FieldKind::String, v, values) <==> v is Str,
        fits_kind(FieldKind::Bool, v, values) <==> v is Bool,
        fits_kind(FieldKind::Float, v, values) <==> v is Num,
        fits_kind(FieldKind::Uint, v, values) <==> v is Num && v->Num_0 is Pos,
        fits_kind(FieldKind::Int, v, values) <==> v is Num && (v->Num_0 is Neg || (v->Num_0 is Pos
            && v->Num_0->Pos_0 <= i64::MAX)),
        fits_kind(FieldKind::Datetime, v, values) <==> v is Str && pattern::is_rfc3339(v->Str_0),
        fits_kind(FieldKind::Enum, v, values) <==> v is Str && values.contains(v->Str_0),
        fits_kind(FieldKind::Array(Box::new(kind)), v, values) <==> v is List && forall|i: int|
            0 <= i < v->List_0.len() ==> fits_kind(kind, #[trigger] v->List_0[i], values),
        fits_kind(FieldKind::SetOf(Box::new(kind)), v, values) <==> fits_kind(
            FieldKind::Array(Box::new(kind)),
            v,
            values,
        ) && forall|i: int, j: int|
            0 <= i < j < v->List_0.len() ==> json::compact(#[trigger] v->List_0[i])
                != json::compact(#[trigger] v->List_0[j]),
{
    reveal_with_fuel(fits_kind, 2);
    if v is List {
        let items = v->List_0;
        let texts = compact_all(items);
        if texts.no_duplicates() {
            assert forall|i: int, j: int| 0 <= i < j < items.len() implies json::compact(
                #[trigger] items[i],
            ) != json::compact(#[trigger] items[j]) by {
                assert(texts[i] != texts[j]);
            }
        } else {
            let (i, j) = choose|i: int, j: int|
                0 <= i < texts.len() && 0 <= j < texts.len() && i != j && texts[i] == texts[j];
            assert(json::compact(items[i]) == json::compact(items[j]));
        }
    }
}

/// A kind is read by its name: the scalar kinds by theirs, and `array<..>` and
/// `set<..>` of a scalar kind as lists of it. A list of lists is none.
pub proof fn kinds_are_read_by_name(name: Seq<char>)
    requires
        name != "any"@,
    ensures
        kind_of("string"@) == Ok::<FieldKind, Seq<char>>(FieldKind::String),
        kind_of("bool"@) == Ok::<FieldKind, Seq<char>>(FieldKind::Bool),
        kind_of("int"@) == Ok::<FieldKind, Seq<char>>(FieldKind::Int),
        kind_of("uint"@) == Ok::<FieldKind, Seq<char>>(FieldKind::Uint),
        kind_of("float"@) == Ok::<FieldKind, Seq<char>>(FieldKind::Float),
        kind_of("datetime"@) == Ok::<FieldKind, Seq<char>>(FieldKind::Datetime),
        kind_of("enum"@) == Ok::<FieldKind, Seq<char>>(FieldKind::Enum),
        kind_of("any"@) == Ok::<FieldKind, Seq<char>>(FieldKind::Any),
        kind_of(name) is Ok && !(kind_of(name)->Ok_0 is Array) && !(kind_of(name)->Ok_0 is SetOf) ==> {
            let k = kind_of(name)->Ok_0;
            &&& kind_of("array<"@ + name + ">"@) == Ok::<FieldKind, Seq<char>>(
                FieldKind::Array(Box::new(k)),
            )
            &&& kind_of("set<"@ + name + ">"@) == Ok::<FieldKind, Seq<char>>(
                FieldKind::SetOf(Box::new(k)),
            )
        },
{
    reveal_strlit("string");
    reveal_strlit("bool");
    reveal_strlit("int");
    reveal_strlit("uint");
    reveal_strlit("float");
    reveal_strlit("datetime");
    reveal_strlit("enum");
    reveal_strlit("any");
    reveal_strlit("array<");
    reveal_strlit("set<");
    reveal_strlit(">");
    assert("string"@[0] != "bool"@[0] && "string"@[0] != "int"@[0] && "string"@[0] != "uint"@[0]);
    assert("any"@.len() == 3 && "int"@.len() == 3 && "any"@[0] != "int"@[0]);
    assert("bool"@.len() == 4 && "uint"@.len() == 4 && "enum"@.len() == 4);
    assert("bool"@[0] == 'b' && "uint"@[0] == 'u' && "enum"@[0] == 'e');
    assert("string"@.len() == 6 && "float"@.len() == 5 && "datetime"@.len() == 8);
    let a = "array<"@ + name + ">"@;
    let s = "set<"@ + name + ">"@;
    assert(a.last() == '>' && s.last() == '>');
    assert(a.subrange(6, a.len() - 1) =~= name);
    assert(s.subrange(4, s.len() - 1) =~= name);
    assert("array<"@.is_prefix_of(a));
    assert("set<"@.is_prefix_of(s));
    assert(a[5] == '<' && s[3] == '<');
    assert(s[0] != 'a');
    assert(a.len() >= 7 && s.len() >= 5);
    assert("string"@.last() != '>' && "bool"@.last() != '>' && "int"@.last() != '>'
        && "uint"@.last() != '>' && "float"@.last() != '>' && "datetime"@.last() != '>'
        && "enum"@.last() != '>' && "any"@.last() != '>');
    assert(!"array<"@.is_prefix_of(s)) by {
        if "array<"@.is_prefix_of(s) {
            assert(s[0] == "array<"@[0]);
        }
    }
}

/// Whether a name may be declared as a field of a task type: it is not reserved,
/// no relationship type or inverse and no time is called so, and it is neither
/// the type field nor the stored name of a status that is shown under another.
pub open spec fn may_be_declared(cfg: Config, field: Seq<char>) -> bool {
    &&& !model::reserved_keys().contains(field)
    &&& !cfg.relationships.types@.contains_key(field)
    &&& field.len() > 0 ==> forall|t: Seq<char>| #[trigger]
        cfg.relationships.types@.contains_key(t) ==> cfg.relationships.types@[t].inverse != field
    &&& field.len() > 0 ==> field != cfg.timestamps.create_time@ && field
        != cfg.timestamps.update_time@ && field != cfg.timestamps.close_time@
    &&& field != cfg.workflow.type_field@
    &&& field != TASK_TYPE_KEY@
    &&& field == STATUS_KEY@ ==> cfg.workflow.status_field@ == STATUS_KEY@
}

/// Whether the limits of a field suit its kind and each other, and its default.
pub open spec fn limits_suit(spec: FieldSpecV, kind: FieldKind) -> bool {
    let ordered = kind is Int || kind is Uint || kind is Float || kind is Datetime || kind is String;
    &&& spec.min matches Some(b) ==> ordered && fits_kind(kind, b, spec.values)
    &&& spec.max matches Some(b) ==> ordered && fits_kind(kind, b, spec.values)
    &&& spec.min matches Some(a) ==> (spec.max matches Some(b) ==> json::json_order(a, b)
        != text::Order::Greater)
    &&& spec.pattern matches Some(p) ==> kind is String && pattern::regex_error(p) is None
    &&& (spec.min_len is Some || spec.max_len is Some) ==> kind is String
    &&& spec.min_len matches Some(a) ==> (spec.max_len matches Some(b) ==> a <= b)
    &&& (spec.min_items is Some || spec.max_items is Some) ==> kind is Array || kind is SetOf
    &&& spec.min_items matches Some(a) ==> (spec.max_items matches Some(b) ==> a <= b)
    &&& spec.default matches Some(d) ==> fits_kind(kind, d, spec.values) && keeps_limits(spec, d)
}

/// Whether the transitions of a field suit it: it is a plain enum; they lead from
/// every value, only from values and only to values, to none twice; and every
/// value leads to `done` in the end, if that is asked for.
pub open spec fn transitions_suit(
    transitions: TransitionsV,
    values: Seq<Seq<char>>,
    kind: FieldKind,
    done: Option<Seq<char>>,
) -> bool {
    &&& kind is Enum
    &&& values.len() > 0 ==> {
        &&& forall|v: Seq<char>| #[trigger]
            transitions.contains_key(v) <==> values.contains(v)
        &&& forall|from: Seq<char>| #[trigger]
            transitions.contains_key(from) ==> transitions[from].no_duplicates() && forall|i: int|
                0 <= i < transitions[from].len() ==> values.contains(#[trigger] transitions[from][i])
        &&& done matches Some(d) ==> values.contains(d) && forall|i: int|
            0 <= i < values.len() ==> #[trigger] values[i] == d || reach::reaches(
                Set::new(
                    |e: (Seq<char>, Seq<char>)|
                        transitions.contains_key(e.0) && transitions[e.0].contains(e.1),
                ),
                values[i],
                d,
            )
    }
}

/// Whether a declared field holds together.
pub open spec fn field_suits(cfg: Config, field: Seq<char>, schema: FieldSchemaV) -> bool {
    &&& may_be_declared(cfg, field)
    &&& kind_of(schema.kind()) matches Ok(kind) && {
        let base = match kind {
            FieldKind::Array(k) => *k,
            FieldKind::SetOf(k) => *k,
            _ => kind,
        };
        &&& base is Enum <==> schema.values().len() > 0
        &&& schema matches FieldSchemaV::Full(spec) ==> limits_suit(spec, kind)
        &&& schema matches FieldSchemaV::Full(spec) ==> spec.transitions == Map::<
            Seq<char>,
            Seq<Seq<char>>,
        >::empty() || transitions_suit(
            spec.transitions,
            spec.values,
            kind,
            if field == cfg.workflow.status_field@ && cfg.workflow.done_status@.len() > 0 {
                Some(cfg.workflow.done_status@)
            } else {
                None
            },
        )
    }
}

proof fn lemma_targets(
    ctx: Seq<char>,
    from: Seq<char>,
    targets: Seq<Seq<char>>,
    values: Seq<Seq<char>>,
)
    ensures
        target_problems(ctx, from, targets, values).len() == 0 <==> targets.no_duplicates()
            && forall|i: int| 0 <= i < targets.len() ==> values.contains(#[trigger] targets[i]),
    decreases targets.len(),
{
    if targets.len() > 0 {
        let rest = targets.drop_last();
        let to = targets.last();
        lemma_targets(ctx, from, rest, values);
        if target_problems(ctx, from, targets, values).len() == 0 {
            assert forall|i: int| 0 <= i < targets.len() implies values.contains(
                #[trigger] targets[i],
            ) by {
                if i < rest.len() {
                    assert(rest[i] == targets[i]);
                }
            }
            assert forall|i: int, j: int|
                0 <= i < targets.len() && 0 <= j < targets.len() && i != j implies targets[i]
                != targets[j] by {
                if i < rest.len() && j < rest.len() {
                    assert(rest[i] != rest[j]);
                } else if i < rest.len() {
                    assert(rest.contains(rest[i]));
                } else {
                    assert(rest.contains(rest[j]));
                }
            }
        }
        if targets.no_duplicates() && forall|i: int|
            0 <= i < targets.len() ==> values.contains(#[trigger] targets[i]) {
            assert forall|i: int| 0 <= i < rest.len() implies values.contains(
                #[trigger] rest[i],
            ) by {
                assert(targets[i] == rest[i]);
            }
            assert(values.contains(targets[targets.len() - 1]));
            if rest.contains(to) {
                let i = choose|i: int| 0 <= i < rest.len() && rest[i] == to;
                assert(targets[i] == targets[targets.len() - 1]);
            }
        }
    }
}

proof fn lemma_states(
    ctx: Seq<char>,
    transitions: TransitionsV,
    keys: Seq<Seq<char>>,
    values: Seq<Seq<char>>,
)
    ensures
        state_problems(ctx, transitions, keys, values).len() == 0 <==> forall|i: int|
            0 <= i < keys.len() ==> values.contains(#[trigger] keys[i])
                && transitions[keys[i]].no_duplicates() && forall|j: int|
                0 <= j < transitions[keys[i]].len() ==> values.contains(
                    #[trigger] transitions[keys[i]][j],
                ),
    decreases keys.len(),
{
    if keys.len() > 0 {
        let rest = keys.drop_last();
        let from = keys.last();
        lemma_states(ctx, transitions, rest, values);
        lemma_targets(ctx, from, transitions[from], values);
        assert(keys[keys.len() - 1] == from);
        assert forall|i: int| 0 <= i < rest.len() implies #[trigger] rest[i] == keys[i] by {}
        if state_problems(ctx, transitions, keys, values).len() == 0 {
            assert forall|i: int| 0 <= i < keys.len() implies values.contains(#[trigger] keys[i])
                && transitions[keys[i]].no_duplicates() && forall|j: int|
                0 <= j < transitions[keys[i]].len() ==> values.contains(
                    #[trigger] transitions[keys[i]][j],
                ) by {
                if i < rest.len() {
                    assert(rest[i] == keys[i]);
                }
            }
        }
    }
}

proof fn lemma_missing(transitions: TransitionsV, values: Seq<Seq<char>>)
    ensures
        states_missing(transitions, values).len() == 0 <==> forall|i: int|
            0 <= i < values.len() ==> transitions.contains_key(#[trigger] values[i]),
    decreases values.len(),
{
    if values.len() > 0 {
        let rest = values.drop_last();
        lemma_missing(transitions, rest);
        assert(values[values.len() - 1] == values.last());
        assert forall|i: int| 0 <= i < rest.len() implies #[trigger] rest[i] == values[i] by {}
        if states_missing(transitions, values).len() == 0 {
            assert forall|i: int| 0 <= i < values.len() implies transitions.contains_key(
                #[trigger] values[i],
            ) by {
                if i < rest.len() {
                    assert(rest[i] == values[i]);
                }
            }
        }
    }
}

proof fn lemma_stranded(transitions: TransitionsV, values: Seq<Seq<char>>, done: Seq<char>)
    ensures
        stranded(transitions, values, done).len() == 0 <==> forall|i: int|
            0 <= i < values.len() ==> can_finish(transitions, #[trigger] values[i], done),
    decreases values.len(),
{
    if values.len() > 0 {
        let rest = values.drop_last();
        lemma_stranded(transitions, rest, done);
        assert(values[values.len() - 1] == values.last());
        assert forall|i: int| 0 <= i < rest.len() implies #[trigger] rest[i] == values[i] by {}
        if stranded(transitions, values, done).len() == 0 {
            assert forall|i: int| 0 <= i < values.len() implies can_finish(
                transitions,
                #[trigger] values[i],
                done,
            ) by {
                if i < rest.len() {
                    assert(rest[i] == values[i]);
                }
            }
        }
    }
}

proof fn lemma_transitions(
    ctx: Seq<char>,
    schema: FieldSchemaV,
    kind: FieldKind,
    done: Option<Seq<char>>,
)
    requires
        schema matches FieldSchemaV::Full(spec) && spec.transitions != Map::<
            Seq<char>,
            Seq<Seq<char>>,
        >::empty() && spec.transitions.dom().finite(),
    ensures
        transitions_problems(ctx, schema, kind, done).len() == 0 <==> transitions_suit(
            schema->Full_0.transitions,
            schema->Full_0.values,
            kind,
            done,
        ),
{
    let spec = schema->Full_0;
    let transitions = spec.transitions;
    let values = spec.values;
    let keys = strmap::sorted_of(transitions.dom());
    strmap::sorted_of_finite(transitions.dom());
    assert forall|k: Seq<char>| #[trigger] keys.contains(k) <==> transitions.contains_key(k) by {
        assert(keys.to_set().contains(k) <==> keys.contains(k));
    }
    lemma_states(ctx, transitions, keys, values);
    lemma_missing(transitions, values);
    if let Some(d) = done {
        lemma_stranded(transitions, values, d);
        assert(steps(transitions) =~= Set::new(
            |e: (Seq<char>, Seq<char>)|
                transitions.contains_key(e.0) && transitions[e.0].contains(e.1),
        ));
        if forall|i: int|
            0 <= i < values.len() ==> can_finish(transitions, #[trigger] values[i], d) {
            assert forall|i: int| 0 <= i < values.len() implies #[trigger] values[i] == d
                || reach::reaches(steps(transitions), values[i], d) by {
                assert(can_finish(transitions, values[i], d));
            }
        }
    }
    if kind is Enum && values.len() > 0 {
        if transitions_problems(ctx, schema, kind, done).len() == 0 {
            assert forall|v: Seq<char>| #[trigger]
                transitions.contains_key(v) <==> values.contains(v) by {
                if transitions.contains_key(v) {
                    assert(keys.contains(v));
                    let i = choose|i: int| 0 <= i < keys.len() && keys[i] == v;
                    assert(values.contains(keys[i]));
                }
                if values.contains(v) {
                    let i = choose|i: int| 0 <= i < values.len() && values[i] == v;
                    assert(transitions.contains_key(values[i]));
                }
            }
            assert forall|from: Seq<char>| #[trigger]
                transitions.contains_key(from) implies transitions[from].no_duplicates()
                && forall|i: int|
                0 <= i < transitions[from].len() ==> values.contains(
                    #[trigger] transitions[from][i],
                ) by {
                assert(keys.contains(from));
                let i = choose|i: int| 0 <= i < keys.len() && keys[i] == from;
                assert(values.contains(keys[i]));
            }
        }
        if transitions_suit(transitions, values, kind, done) {
            assert forall|i: int| 0 <= i < keys.len() implies values.contains(#[trigger] keys[i])
                && transitions[keys[i]].no_duplicates() && forall|j: int|
                0 <= j < transitions[keys[i]].len() ==> values.contains(
                    #[trigger] transitions[keys[i]][j],
                ) by {
                assert(keys.contains(keys[i]));
                assert(transitions.contains_key(keys[i]));
            }
            assert forall|i: int| 0 <= i < values.len() implies transitions.contains_key(
                #[trigger] values[i],
            ) by {
                assert(values.contains(values[i]));
            }
        }
    }
}

/// A declared field has no problem exactly where it holds together: its name may
/// be declared, its kind is known, it has values exactly where it is an enum, and
/// its limits, its default and its transitions suit it.
pub proof fn sound_fields_have_no_problems(
    cfg: Config,
    ctx: Seq<char>,
    field: Seq<char>,
    schema: FieldSchemaV,
)
    requires
        schema matches FieldSchemaV::Full(spec) ==> spec.transitions.dom().finite(),
    ensures
        field_name_problems(cfg, ctx, field).len() == 0 && field_kind_problems(
            cfg,
            ctx,
            field,
            schema,
        ).len() == 0 <==> field_suits(cfg, field, schema),
{
    let w = cfg.workflow;
    let types = cfg.relationships.types@;
    assert(field_name_problems(cfg, ctx, field).len() == 0 <==> may_be_declared(cfg, field)) by {
        if relationship_name_set(types).contains(field) && !types.contains_key(field) {
            let t = choose|t: Seq<char>| #[trigger]
                types.contains_key(t) && types[t].inverse == field;
            assert(types.contains_key(t));
        }
    }
    if let Ok(kind) = kind_of(schema.kind()) {
        let done = if field == w.status_field@ && w.done_status@.len() > 0 {
            Some(w.done_status@)
        } else {
            None
        };
        if let FieldSchemaV::Full(spec) = schema {
            lemma_limits(ctx, spec, kind);
            if spec.transitions != Map::<Seq<char>, Seq<Seq<char>>>::empty() {
                lemma_transitions(ctx, schema, kind, done);
            }
        }
    }
}

proof fn lemma_limits(ctx: Seq<char>, spec: FieldSpecV, kind: FieldKind)
    ensures
        field_spec_problems(ctx, spec, kind).len() == 0 <==> limits_suit(spec, kind),
{
    if let Some(d) = spec.default {
        violations_are_limits_passed(spec, spec.kind, d);
    }
}

/// A configuration that passes keeps enough events, has a relationship type that
/// blocks, names the status and the type field, has no relationship type whose
/// inverse is another type, and declares only fields that hold together.
pub proof fn sound_configurations(cfg: Config, t: Seq<char>, field: Seq<char>)
    requires
        struct_problems(cfg).len() == 0,
        cfg.relationships.types@.dom().finite(),
        cfg.task_types.types@.dom().finite(),
        cfg.task_types.types@.contains_key(t) ==> cfg.task_types.types@[t].fields.dom().finite(),
    ensures
        cfg.compaction.keep_events >= 300,
        exists|m: Seq<char>| #[trigger]
            cfg.relationships.types@.contains_key(m) && cfg.relationships.types@[m].kind
                == RelKind::Blocker,
        cfg.workflow.status_field@.len() > 0,
        cfg.workflow.type_field@.len() > 0,
        cfg.relationships.types@.contains_key(t) ==> {
            let inverse = cfg.relationships.types@[t].inverse;
            inverse == t || !cfg.relationships.types@.contains_key(inverse) || inverse.len() == 0
        },
        cfg.task_types.types@.contains_key(t) && cfg.task_types.types@[t].fields.contains_key(field)
            && (cfg.task_types.types@[t].fields[field] matches FieldSchemaV::Full(spec)
            ==> spec.transitions.dom().finite()) ==> field_suits(
            cfg,
            field,
            cfg.task_types.types@[t].fields[field],
        ),
{
    let types = cfg.relationships.types@;
    let names = strmap::sorted_of(types.dom());
    strmap::sorted_of_finite(types.dom());
    if types.contains_key(t) {
        assert(names.to_set().contains(t));
        lemma_inverse_clean(types, names, t);
    }
    let kinds = strmap::sorted_of(cfg.task_types.types@.dom());
    strmap::sorted_of_finite(cfg.task_types.types@.dom());
    if cfg.task_types.types@.contains_key(t) {
        let fields = cfg.task_types.types@[t].fields;
        assert(kinds.to_set().contains(t));
        lemma_types_clean(cfg, kinds, t);
        let own = strmap::sorted_of(fields.dom());
        strmap::sorted_of_finite(fields.dom());
        if fields.contains_key(field) {
            assert(own.to_set().contains(field));
            let ctx = "task_types."@ + t + ".fields."@ + field;
            lemma_fields_clean(cfg, t, fields, own, field);
            if fields[field] matches FieldSchemaV::Full(spec) ==> spec.transitions.dom().finite() {
                sound_fields_have_no_problems(cfg, ctx, field, fields[field]);
            }
        }
    }
}

proof fn lemma_inverse_clean(types: TypesV, names: Seq<Seq<char>>, t: Seq<char>)
    requires
        inverse_problems(types, names).len() == 0,
        names.contains(t),
    ensures
        types[t].inverse == t || !types.contains_key(types[t].inverse) || types[t].inverse.len() == 0,
    decreases names.len(),
{
    strmap::lemma_contains_last(names, t);
    if names.drop_last().contains(t) {
        lemma_inverse_clean(types, names.drop_last(), t);
    }
}

proof fn lemma_types_clean(cfg: Config, names: Seq<Seq<char>>, t: Seq<char>)
    requires
        types_problems(cfg, names).len() == 0,
        names.contains(t),
    ensures
        fields_problems(
            cfg,
            t,
            cfg.task_types.types@[t].fields,
            strmap::sorted_of(cfg.task_types.types@[t].fields.dom()),
        ).len() == 0,
    decreases names.len(),
{
    strmap::lemma_contains_last(names, t);
    if names.drop_last().contains(t) {
        lemma_types_clean(cfg, names.drop_last(), t);
    }
}

proof fn lemma_fields_clean(
    cfg: Config,
    of_type: Seq<char>,
    fields: Map<Seq<char>, FieldSchemaV>,
    names: Seq<Seq<char>>,
    field: Seq<char>,
)
    requires
        fields_problems(cfg, of_type, fields, names).len() == 0,
        names.contains(field),
    ensures
        ({
            let ctx = "task_types."@ + of_type + ".fields."@ + field;
            field_name_problems(cfg, ctx, field).len() == 0 && field_kind_problems(
                cfg,
                ctx,
                field,
                fields[field],
            ).len() == 0
        }),
    decreases names.len(),
{
    strmap::lemma_contains_last(names, field);
    if names.drop_last().contains(field) {
        lemma_fields_clean(cfg, of_type, fields, names.drop_last(), field);
    }
}

/// Which types gate: those that block and those that nest, and of these the
/// latter alone make subtasks; those that only inform do neither, nor does a name
/// that is not declared.
pub proof fn kinds_say_what_gates(types: TypesV, n: Seq<char>)
    ensures
        gating_types(types).contains(n) && subtask_types(types).contains(n) <==> types.contains_key(n)
            && types[n].kind is Hierarchy,
        gating_types(types).contains(n) && !subtask_types(types).contains(n) <==> types.contains_key(
            n,
        ) && types[n].kind is Blocker,
        !gating_types(types).contains(n) ==> !subtask_types(types).contains(n),
{
}

/// A failed validation counts the problems and lists each of them on a line of its
/// own.
pub proof fn failures_list_every_problem(problems: Seq<Seq<char>>, i: int)
    requires
        0 <= i < problems.len(),
    ensures
        text::begins(
            failure_message(problems),
            "config validation failed ("@ + text::decimal(problems.len()) + " problem(s)):"@,
        ),
        exists|a: Seq<char>, b: Seq<char>|
            #![trigger a + "\n  - "@ + problems[i] + b]
            failure_message(problems) == a + "\n  - "@ + problems[i] + b,
{
    let head = "config validation failed ("@ + text::decimal(problems.len()) + " problem(s)):"@;
    assert(failure_message(problems).take(head.len() as int) =~= head);
    let (a, b) = lemma_bulleted(problems, i);
    assert(failure_message(problems) =~= head + a + "\n  - "@ + problems[i] + b);
}

proof fn lemma_bulleted(texts: Seq<Seq<char>>, i: int) -> (ends: (Seq<char>, Seq<char>))
    requires
        0 <= i < texts.len(),
    ensures
        bulleted(texts) == ends.0 + "\n  - "@ + texts[i] + ends.1,
    decreases texts.len(),
{
    let rest = texts.drop_last();
    if i < rest.len() {
        let (a, b) = lemma_bulleted(rest, i);
        assert(rest[i] == texts[i]);
        let c = b + "\n  - "@ + texts.last();
        assert(bulleted(texts) =~= a + "\n  - "@ + texts[i] + c);
        (a, c)
    } else {
        let a = bulleted(rest);
        let b = Seq::<char>::empty();
        assert(bulleted(texts) =~= a + "\n  - "@ + texts[i] + b);
        (a, b)
    }
}

/// A relationship type that tasks use though it is not declared is a problem, which
/// names the type and, in order, the tasks.
pub proof fn undeclared_types_are_problems(cfg: Config, s: StateV, id: Seq<char>, rel: Seq<char>)
    requires
        s.dom().finite(),
        s.contains_key(id),
        s[id].relationships.contains_key(rel),
        undeclared_types(s, cfg.relationships.types@).finite(),
        !cfg.relationships.types@.contains_key(rel),
    ensures
        exists|who: Seq<Seq<char>>|
            {
                &&& strmap::ascending(who)
                &&& #[trigger] who.contains(id)
                &&& forall|t: Seq<char>| #[trigger]
                    who.contains(t) <==> s.contains_key(t) && s[t].relationships.contains_key(rel)
                &&& graph_problems(cfg, s).contains(
                    "relationship type `"@ + rel + "` is used by "@ + text::decimal(who.len())
                        + " task(s) ("@ + text::joined(who, ", "@)
                        + ") but is not declared in [relationships]"@,
                )
            },
{
    let types = cfg.relationships.types@;
    let used = users_of(s, rel);
    let who = strmap::sorted_of(used);
    vstd::set_lib::lemma_set_subset_finite(s.dom(), used);
    strmap::sorted_of_finite(used);
    assert forall|t: Seq<char>| #[trigger] who.contains(t) <==> used.contains(t) by {
        assert(who.to_set().contains(t) <==> who.contains(t));
    }
    assert(used.contains(id));
    let open = undeclared_types(s, types);
    assert(open.contains(rel));
    strmap::sorted_of_finite(open);
    let rels = strmap::sorted_of(open);
    assert(rels.to_set().contains(rel));
    let k = choose|k: int| 0 <= k < rels.len() && rels[k] == rel;
    assert(graph_problems(cfg, s)[k] == undeclared_message(s, rel));
    assert(who.contains(id));
}

} // verus!
