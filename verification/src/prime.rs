//! What a newcomer has to know of a store: its vocabulary, its declared types
//! and a summary, and the guide written from them.

use crate::config::{self, Config, FieldSchema, FieldSchemaV, RelationshipV, TaskTypeV};
use crate::engine;
use crate::graph;
use crate::json::{Json, JsonV};
use crate::reach;
use crate::read::{self, SchemaReading, Warning};
use crate::status::{self, StatusSummary};
use crate::store::Store;
use crate::strmap::{self, Data, StrMap};
use crate::text;
use vstd::prelude::*;

verus! {

/// One declared field of a task type.
pub struct FieldFacts {
    pub name: String,
    pub kind: String,
    pub required: bool,
    /// The values of an enum.
    pub values: Vec<String>,
    pub default: Option<Json>,
    /// What each value of an enum may change into.
    pub transitions: StrMap<Vec<String>>,
}

/// The model of [`FieldFacts`].
pub struct FieldFactsV {
    pub name: Seq<char>,
    pub kind: Seq<char>,
    pub required: bool,
    pub values: Seq<Seq<char>>,
    pub default: Option<JsonV>,
    pub transitions: Map<Seq<char>, Seq<Seq<char>>>,
}

/// One declared task type.
pub struct TypeFacts {
    pub name: String,
    pub closed: bool,
    pub fields: Vec<FieldFacts>,
}

/// The model of [`TypeFacts`].
pub struct TypeFactsV {
    pub name: Seq<char>,
    pub closed: bool,
    pub fields: Seq<FieldFactsV>,
}

/// One declared relationship type.
pub struct RelationshipFacts {
    pub name: String,
    /// `blocker`, `hierarchy` or `info`.
    pub kind: String,
    /// The name of the edge seen from its target, if it has one.
    pub inverse: String,
}

/// The model of [`RelationshipFacts`].
pub struct RelationshipFactsV {
    pub name: Seq<char>,
    pub kind: Seq<char>,
    pub inverse: Seq<char>,
}

/// The headline counts.
#[derive(Clone, Copy, Debug, PartialEq, Eq, Structural)]
pub struct SummaryFacts {
    pub total: usize,
    pub open: usize,
    pub ready: usize,
    pub blocked: usize,
    pub closed: usize,
}

/// What a newcomer has to know of a store.
pub struct PrimeFacts {
    pub status_field: String,
    pub default_status: String,
    pub done_status: String,
    /// The declared statuses; none where any text will do.
    pub statuses: Vec<String>,
    pub type_field: String,
    /// `allow`, `warn` or `deny`.
    pub untyped_tasks: String,
    pub task_types: Vec<TypeFacts>,
    pub relationships: Vec<RelationshipFacts>,
    pub columns: Vec<String>,
    pub summary: SummaryFacts,
}

/// The model of [`PrimeFacts`].
pub struct PrimeFactsV {
    pub status_field: Seq<char>,
    pub default_status: Seq<char>,
    pub done_status: Seq<char>,
    pub statuses: Seq<Seq<char>>,
    pub type_field: Seq<char>,
    pub untyped_tasks: Seq<char>,
    pub task_types: Seq<TypeFactsV>,
    pub relationships: Seq<RelationshipFactsV>,
    pub columns: Seq<Seq<char>>,
    pub summary: SummaryFacts,
}

/// The facts of a store and the warnings of the read.
pub struct PrimeOutcome {
    pub facts: PrimeFacts,
    pub warnings: Vec<Warning>,
}

impl DeepView for FieldFacts {
    type V = FieldFactsV;

    open spec fn deep_view(&self) -> FieldFactsV {
        FieldFactsV {
            name: self.name@,
            kind: self.kind@,
            required: self.required,
            values: self.values.deep_view(),
            default: self.default.deep_view(),
            transitions: self.transitions@,
        }
    }
}

impl DeepView for TypeFacts {
    type V = TypeFactsV;

    open spec fn deep_view(&self) -> TypeFactsV {
        TypeFactsV { name: self.name@, closed: self.closed, fields: self.fields.deep_view() }
    }
}

impl DeepView for RelationshipFacts {
    type V = RelationshipFactsV;

    open spec fn deep_view(&self) -> RelationshipFactsV {
        RelationshipFactsV { name: self.name@, kind: self.kind@, inverse: self.inverse@ }
    }
}

impl DeepView for PrimeFacts {
    type V = PrimeFactsV;

    open spec fn deep_view(&self) -> PrimeFactsV {
        PrimeFactsV {
            status_field: self.status_field@,
            default_status: self.default_status@,
            done_status: self.done_status@,
            statuses: self.statuses.deep_view(),
            type_field: self.type_field@,
            untyped_tasks: self.untyped_tasks@,
            task_types: self.task_types.deep_view(),
            relationships: self.relationships.deep_view(),
            columns: self.columns.deep_view(),
            summary: self.summary,
        }
    }
}

/// The facts of one declared field.
pub open spec fn field_facts(name: Seq<char>, schema: FieldSchemaV) -> FieldFactsV {
    FieldFactsV {
        name,
        kind: schema.kind(),
        required: schema.required(),
        values: schema.values(),
        default: schema.default_value(),
        transitions: match schema.transitions() {
            Some(m) => m,
            None => Map::empty(),
        },
    }
}

/// The facts of one declared type, its fields by name.
pub open spec fn type_facts(name: Seq<char>, def: TaskTypeV) -> TypeFactsV {
    let names = strmap::sorted_of(def.fields.dom());
    TypeFactsV {
        name,
        closed: def.closed,
        fields: Seq::new(names.len(), |i: int| field_facts(names[i], def.fields[names[i]])),
    }
}

/// The facts of the declared types, by name.
pub open spec fn types_facts(types: Map<Seq<char>, TaskTypeV>) -> Seq<TypeFactsV> {
    let names = strmap::sorted_of(types.dom());
    Seq::new(names.len(), |i: int| type_facts(names[i], types[names[i]]))
}

/// The facts of one declared relationship type.
pub open spec fn relationship_facts(name: Seq<char>, def: RelationshipV) -> RelationshipFactsV {
    RelationshipFactsV { name, kind: def.kind.name(), inverse: def.inverse }
}

/// The facts of the declared relationship types, by name.
pub open spec fn relationships_facts(types: Map<Seq<char>, RelationshipV>) -> Seq<
    RelationshipFactsV,
> {
    let names = strmap::sorted_of(types.dom());
    Seq::new(names.len(), |i: int| relationship_facts(names[i], types[names[i]]))
}

/// `out` and the items of `more` that are not there yet, in order.
pub open spec fn gathered(out: Seq<Seq<char>>, more: Seq<Seq<char>>) -> Seq<Seq<char>>
    decreases more.len(),
{
    if more.len() == 0 {
        out
    } else {
        let rest = gathered(out, more.drop_last());
        if rest.contains(more.last()) {
            rest
        } else {
            rest.push(more.last())
        }
    }
}

/// The values that the types named by `names` declare for the status field,
/// each where it is first seen.
pub open spec fn declared_statuses(
    types: Map<Seq<char>, TaskTypeV>,
    names: Seq<Seq<char>>,
    field: Seq<char>,
) -> Seq<Seq<char>>
    decreases names.len(),
{
    if names.len() == 0 {
        Seq::empty()
    } else {
        let rest = declared_statuses(types, names.drop_last(), field);
        let fields = types[names.last()].fields;
        if fields.contains_key(field) {
            gathered(rest, fields[field].values())
        } else {
            rest
        }
    }
}

/// The facts of a configuration with its counts.
pub open spec fn facts_of(config: Config, s: StatusSummary) -> PrimeFactsV {
    let types = config.task_types.types@;
    PrimeFactsV {
        status_field: config.workflow.status_field@,
        default_status: config.workflow.default_status@,
        done_status: config.workflow.done_status@,
        statuses: declared_statuses(
            types,
            strmap::sorted_of(types.dom()),
            config.workflow.status_field@,
        ),
        type_field: config.workflow.type_field@,
        untyped_tasks: config.workflow.untyped_tasks.name(),
        task_types: types_facts(types),
        relationships: relationships_facts(config.relationships.types@),
        columns: config.display.columns.deep_view(),
        summary: SummaryFacts {
            total: s.total,
            open: (s.total - s.closed) as usize,
            ready: s.ready,
            blocked: s.blocked,
            closed: s.closed,
        },
    }
}

fn facts_of_field(name: &str, schema: &FieldSchema) -> (r: FieldFacts)
    ensures
        r.deep_view() == field_facts(name@, schema.deep_view()),
{
    let transitions = match schema.transitions() {
        Some(m) => m.copy(),
        None => StrMap::new(),
    };
    let default = match schema.default_value() {
        Some(v) => Some(v.copy()),
        None => None,
    };
    FieldFacts {
        name: String::from_str(name),
        kind: String::from_str(schema.kind_str()),
        required: schema.required(),
        values: schema.values(),
        default,
        transitions,
    }
}

fn facts_of_type(name: &str, def: &config::TaskTypeDef) -> (r: TypeFacts)
    ensures
        r.deep_view() == type_facts(name@, def.deep_view()),
{
    let n = def.fields.len();
    let ghost names = def.fields.keys_view();
    let mut fields: Vec<FieldFacts> = Vec::new();
    let mut i: usize = 0;
    while i < n
        invariant
            i <= n,
            n == names.len(),
            names == def.fields.keys_view(),
            fields@.len() == i,
            forall|k: int|
                0 <= k < i ==> (#[trigger] fields@[k]).deep_view() == field_facts(
                    names[k],
                    def.fields@[names[k]],
                ),
        decreases n - i,
    {
        fields.push(facts_of_field(def.fields.key_at(i).as_str(), def.fields.value_at(i)));
        i += 1;
    }
    assert(fields.deep_view() =~= Seq::new(
        names.len(),
        |i: int| field_facts(names[i], def.fields@[names[i]]),
    ));
    TypeFacts { name: String::from_str(name), closed: def.closed, fields }
}

fn gather(out: &mut Vec<String>, more: &Vec<String>)
    ensures
        final(out).deep_view() == gathered(old(out).deep_view(), more.deep_view()),
{
    let ghost before = out.deep_view();
    let ghost all = more.deep_view();
    let mut i: usize = 0;
    assert(all.take(0) =~= Seq::empty());
    while i < more.len()
        invariant
            i <= more.len(),
            all == more.deep_view(),
            out.deep_view() == gathered(before, all.take(i as int)),
        decreases more.len() - i,
    {
        let ghost longer = all.take(i as int + 1);
        assert(longer.drop_last() =~= all.take(i as int));
        assert(longer.last() == more@[i as int]@);
        if !engine::contains_text(out, more[i].as_str()) {
            let ghost had = out.deep_view();
            out.push(more[i].clone());
            assert(out.deep_view() =~= had.push(more@[i as int]@));
        }
        i += 1;
    }
    assert(all.take(all.len() as int) =~= all);
}

fn statuses_of(config: &Config) -> (r: Vec<String>)
    ensures
        r.deep_view() == declared_statuses(
            config.task_types.types@,
            strmap::sorted_of(config.task_types.types@.dom()),
            config.workflow.status_field@,
        ),
{
    let types = &config.task_types.types;
    let field = config.workflow.status_field.as_str();
    let n = types.len();
    let ghost names = types.keys_view();
    let mut out: Vec<String> = Vec::new();
    let mut i: usize = 0;
    assert(names.take(0) =~= Seq::empty());
    assert(out.deep_view() =~= Seq::empty());
    while i < n
        invariant
            i <= n,
            n == names.len(),
            names == types.keys_view(),
            out.deep_view() == declared_statuses(types@, names.take(i as int), field@),
        decreases n - i,
    {
        let ghost longer = names.take(i as int + 1);
        assert(longer.drop_last() =~= names.take(i as int));
        assert(longer.last() == names[i as int]);
        let def = types.value_at(i);
        assert(types@[names[i as int]].fields == def.fields@);
        match def.fields.get(field) {
            Some(schema) => gather(&mut out, &schema.values()),
            None => {},
        }
        i += 1;
    }
    assert(names.take(n as int) =~= names);
    out
}

/// Distills the configuration and its counts.
pub fn build_facts(config: &Config, summary: &StatusSummary) -> (r: PrimeFacts)
    requires
        summary.closed <= summary.total,
    ensures
        r.deep_view() == facts_of(*config, *summary),
{
    let types = &config.task_types.types;
    let n = types.len();
    let ghost names = types.keys_view();
    let mut task_types: Vec<TypeFacts> = Vec::new();
    let mut i: usize = 0;
    while i < n
        invariant
            i <= n,
            n == names.len(),
            names == types.keys_view(),
            task_types@.len() == i,
            forall|k: int|
                0 <= k < i ==> (#[trigger] task_types@[k]).deep_view() == type_facts(
                    names[k],
                    types@[names[k]],
                ),
        decreases n - i,
    {
        task_types.push(facts_of_type(types.key_at(i).as_str(), types.value_at(i)));
        i += 1;
    }
    assert(task_types.deep_view() =~= types_facts(types@));
    let rels = &config.relationships.types;
    let m = rels.len();
    let ghost rel_names = rels.keys_view();
    let mut relationships: Vec<RelationshipFacts> = Vec::new();
    let mut j: usize = 0;
    while j < m
        invariant
            j <= m,
            m == rel_names.len(),
            rel_names == rels.keys_view(),
            relationships@.len() == j,
            forall|k: int|
                0 <= k < j ==> (#[trigger] relationships@[k]).deep_view() == relationship_facts(
                    rel_names[k],
                    rels@[rel_names[k]],
                ),
        decreases m - j,
    {
        let def = rels.value_at(j);
        relationships.push(
            RelationshipFacts {
                name: rels.key_at(j).clone(),
                kind: String::from_str(def.kind.as_str()),
                inverse: def.inverse.clone(),
            },
        );
        j += 1;
    }
    assert(relationships.deep_view() =~= relationships_facts(rels@));
    let workflow = &config.workflow;
    PrimeFacts {
        status_field: workflow.status_field.clone(),
        default_status: workflow.default_status.clone(),
        done_status: workflow.done_status.clone(),
        statuses: statuses_of(config),
        type_field: workflow.type_field.clone(),
        untyped_tasks: String::from_str(workflow.untyped_tasks.as_str()),
        task_types,
        relationships,
        columns: config.display.columns.copy(),
        summary: SummaryFacts {
            total: summary.total,
            open: summary.total - summary.closed,
            ready: summary.ready,
            blocked: summary.blocked,
            closed: summary.closed,
        },
    }
}

/// The facts of a store: its configuration and the counts of its tasks. A
/// blocker graph with a cycle has no counts.
pub fn prime(store: &Store, schema: &SchemaReading) -> (r: Result<PrimeOutcome, String>)
    ensures
        ({
            let s = store.shown(*schema);
            &&& r is Err <==> reach::cyclic(graph::dep_edges(s, store.gates()))
            &&& match r {
                Ok(o) => {
                    &&& exists|sum: StatusSummary|
                        status::summarizes(
                            sum,
                            s,
                            store.config.workflow.status_field@,
                            store.config.workflow.done_status@,
                            store.gates(),
                        ) && o.facts.deep_view() == #[trigger] facts_of(store.config, sum)
                    &&& o.warnings.deep_view() == store.warned(*schema)
                },
                Err(m) => m@ == graph::cycle_message(),
            }
        }),
{
    let session = read::read(store, schema);
    let config = &store.config;
    let blockers = config.relationships.blocker_types();
    match status::status_summary(&session.state, &config.workflow, &blockers) {
        Ok(summary) => {
            let facts = build_facts(config, &summary);
            assert(facts.deep_view() == facts_of(store.config, summary));
            Ok(PrimeOutcome { facts, warnings: session.warnings })
        },
        Err(m) => Err(m),
    }
}

/// Words for examples that run against this store.
pub struct PrimeExamples {
    /// A status to claim work with.
    pub claim: String,
    /// The first declared type, or `task`.
    pub task_type: String,
    /// The required fields of that type but for the status, as `name="..."`.
    pub req_example: String,
    /// A relationship type that gates, or the first one.
    pub blocker: String,
    /// A filter for a list.
    pub filter: String,
}

/// The model of [`PrimeExamples`].
pub struct ExamplesV {
    pub claim: Seq<char>,
    pub task_type: Seq<char>,
    pub req_example: Seq<char>,
    pub blocker: Seq<char>,
    pub filter: Seq<char>,
}

impl DeepView for PrimeExamples {
    type V = ExamplesV;

    open spec fn deep_view(&self) -> ExamplesV {
        ExamplesV {
            claim: self.claim@,
            task_type: self.task_type@,
            req_example: self.req_example@,
            blocker: self.blocker@,
            filter: self.filter@,
        }
    }
}

/// The first status that is neither the default nor the done one, else the
/// default.
pub open spec fn claim_of(
    statuses: Seq<Seq<char>>,
    default: Seq<char>,
    done: Seq<char>,
) -> Seq<char>
    decreases statuses.len(),
{
    if statuses.len() == 0 {
        default
    } else if statuses[0] != default && statuses[0] != done {
        statuses[0]
    } else {
        claim_of(statuses.drop_first(), default, done)
    }
}

/// The required fields but for the status, each as `name="..."`.
pub open spec fn required_tokens(
    fields: Seq<FieldFactsV>,
    status_field: Seq<char>,
) -> Seq<Seq<char>>
    decreases fields.len(),
{
    if fields.len() == 0 {
        Seq::empty()
    } else {
        let rest = required_tokens(fields.drop_last(), status_field);
        let f = fields.last();
        if f.required && f.name != status_field {
            rest.push(f.name + "=\"...\""@)
        } else {
            rest
        }
    }
}

/// The first relationship type that gates, if one does.
pub open spec fn gating_name(rels: Seq<RelationshipFactsV>) -> Option<Seq<char>>
    decreases rels.len(),
{
    if rels.len() == 0 {
        None
    } else if rels[0].kind == "blocker"@ || rels[0].kind == "hierarchy"@ {
        Some(rels[0].name)
    } else {
        gating_name(rels.drop_first())
    }
}

/// The first optional field with declared values, if there is one.
pub open spec fn optional_enum(fields: Seq<FieldFactsV>) -> Option<FieldFactsV>
    decreases fields.len(),
{
    if fields.len() == 0 {
        None
    } else if !fields[0].required && fields[0].values.len() > 0 {
        Some(fields[0])
    } else {
        optional_enum(fields.drop_first())
    }
}

/// The examples for given facts.
pub open spec fn examples_of(f: PrimeFactsV) -> ExamplesV {
    let fields = if f.task_types.len() > 0 {
        f.task_types[0].fields
    } else {
        Seq::empty()
    };
    let tokens = required_tokens(fields, f.status_field);
    ExamplesV {
        claim: claim_of(f.statuses, f.default_status, f.done_status),
        task_type: if f.task_types.len() > 0 {
            f.task_types[0].name
        } else {
            "task"@
        },
        req_example: if tokens.len() == 0 {
            "title=\"...\""@
        } else {
            text::joined(tokens, " "@)
        },
        blocker: match gating_name(f.relationships) {
            Some(name) => name,
            None => if f.relationships.len() > 0 {
                f.relationships[0].name
            } else {
                "depends_on"@
            },
        },
        filter: match optional_enum(fields) {
            Some(x) => "'"@ + x.name + "="@ + x.values[0] + "'"@,
            None => "'"@ + f.status_field + "!="@ + f.done_status + "'"@,
        },
    }
}

fn pick_claim(statuses: &Vec<String>, default: &str, done: &str) -> (r: String)
    ensures
        r@ == claim_of(statuses.deep_view(), default@, done@),
{
    let ghost all = statuses.deep_view();
    let mut i: usize = 0;
    assert(all.skip(0) =~= all);
    while i < statuses.len()
        invariant
            i <= statuses.len(),
            all == statuses.deep_view(),
            claim_of(all, default@, done@) == claim_of(all.skip(i as int), default@, done@),
        decreases statuses.len() - i,
    {
        let s = &statuses[i];
        assert(all.skip(i as int)[0] == s@);
        assert(all.skip(i as int).drop_first() =~= all.skip(i as int + 1));
        if !text::same_text(s.as_str(), default) && !text::same_text(s.as_str(), done) {
            return s.clone();
        }
        i += 1;
    }
    String::from_str(default)
}

fn tokens_of(fields: &Vec<FieldFacts>, status_field: &str) -> (r: Vec<String>)
    ensures
        r.deep_view() == required_tokens(fields.deep_view(), status_field@),
{
    let ghost all = fields.deep_view();
    let mut out: Vec<String> = Vec::new();
    let mut i: usize = 0;
    assert(all.take(0) =~= Seq::empty());
    assert(out.deep_view() =~= Seq::empty());
    while i < fields.len()
        invariant
            i <= fields.len(),
            all == fields.deep_view(),
            out.deep_view() == required_tokens(all.take(i as int), status_field@),
        decreases fields.len() - i,
    {
        let ghost longer = all.take(i as int + 1);
        assert(longer.drop_last() =~= all.take(i as int));
        let f = &fields[i];
        assert(longer.last() == f.deep_view());
        if f.required && !text::same_text(f.name.as_str(), status_field) {
            let ghost had = out.deep_view();
            let token = text::cat2(f.name.as_str(), "=\"...\"");
            out.push(token);
            assert(out.deep_view() =~= had.push(token@));
        }
        i += 1;
    }
    assert(all.take(all.len() as int) =~= all);
    out
}

fn pick_blocker(rels: &Vec<RelationshipFacts>) -> (r: String)
    ensures
        r@ == (match gating_name(rels.deep_view()) {
            Some(name) => name,
            None => if rels.deep_view().len() > 0 {
                rels.deep_view()[0].name
            } else {
                "depends_on"@
            },
        }),
{
    let ghost all = rels.deep_view();
    let mut i: usize = 0;
    assert(all.skip(0) =~= all);
    while i < rels.len()
        invariant
            i <= rels.len(),
            all == rels.deep_view(),
            gating_name(all) == gating_name(all.skip(i as int)),
        decreases rels.len() - i,
    {
        let r = &rels[i];
        assert(all.skip(i as int)[0] == r.deep_view());
        assert(all.skip(i as int).drop_first() =~= all.skip(i as int + 1));
        if text::same_text(r.kind.as_str(), "blocker") || text::same_text(
            r.kind.as_str(),
            "hierarchy",
        ) {
            return r.name.clone();
        }
        i += 1;
    }
    if rels.len() > 0 {
        assert(all[0] == rels@[0].deep_view());
        rels[0].name.clone()
    } else {
        String::from_str("depends_on")
    }
}

fn pick_enum(fields: &Vec<FieldFacts>) -> (r: Option<&FieldFacts>)
    ensures
        match r {
            Some(f) => optional_enum(fields.deep_view()) == Some(f.deep_view()) && f.values.len() > 0,
            None => optional_enum(fields.deep_view()) is None,
        },
{
    let ghost all = fields.deep_view();
    let mut i: usize = 0;
    assert(all.skip(0) =~= all);
    while i < fields.len()
        invariant
            i <= fields.len(),
            all == fields.deep_view(),
            optional_enum(all) == optional_enum(all.skip(i as int)),
        decreases fields.len() - i,
    {
        let f = &fields[i];
        assert(all.skip(i as int)[0] == f.deep_view());
        assert(f.values.deep_view().len() == f.values.len());
        assert(all.skip(i as int).drop_first() =~= all.skip(i as int + 1));
        if !f.required && f.values.len() > 0 {
            return Some(f);
        }
        i += 1;
    }
    None
}

/// Words for examples that run against the store the facts are of.
pub fn examples(f: &PrimeFacts) -> (r: PrimeExamples)
    ensures
        r.deep_view() == examples_of(f.deep_view()),
{
    let none: Vec<FieldFacts> = Vec::new();
    assert(none.deep_view() =~= Seq::empty());
    let typed = f.task_types.len() > 0;
    assert(f.task_types.deep_view().len() == f.task_types.len());
    proof {
        if typed {
            assert(f.deep_view().task_types[0] == f.task_types@[0].deep_view());
        }
    }
    let fields = if typed { &f.task_types[0].fields } else { &none };
    let task_type = if typed {
        f.task_types[0].name.clone()
    } else {
        String::from_str("task")
    };
    let tokens = tokens_of(fields, f.status_field.as_str());
    assert(tokens.deep_view().len() == tokens.len());
    let req_example = if tokens.len() == 0 {
        String::from_str("title=\"...\"")
    } else {
        text::join(&tokens, " ")
    };
    let filter = match pick_enum(fields) {
        Some(x) => {
            assert(x.values.deep_view()[0] == x.values@[0]@);
            text::cat5("'", x.name.as_str(), "=", x.values[0].as_str(), "'")
        },
        None => text::cat5("'", f.status_field.as_str(), "!=", f.done_status.as_str(), "'"),
    };
    PrimeExamples {
        claim: pick_claim(&f.statuses, f.default_status.as_str(), f.done_status.as_str()),
        task_type,
        req_example,
        blocker: pick_blocker(&f.relationships),
        filter,
    }
}

proof fn lemma_gathered(out: Seq<Seq<char>>, more: Seq<Seq<char>>, x: Seq<char>)
    requires
        out.no_duplicates(),
    ensures
        gathered(out, more).contains(x) <==> out.contains(x) || more.contains(x),
        gathered(out, more).no_duplicates(),
    decreases more.len(),
{
    if more.len() > 0 {
        let rest = more.drop_last();
        lemma_gathered(out, rest, x);
        strmap::lemma_contains_last(more, x);
        let few = gathered(out, rest);
        let all = gathered(out, more);
        if !few.contains(more.last()) {
            assert(all.drop_last() =~= few);
            strmap::lemma_contains_last(all, x);
        }
    }
}

proof fn lemma_statuses(
    types: Map<Seq<char>, TaskTypeV>,
    names: Seq<Seq<char>>,
    field: Seq<char>,
    x: Seq<char>,
)
    ensures
        declared_statuses(types, names, field).contains(x) <==> exists|i: int|
            0 <= i < names.len() && declares(types[#[trigger] names[i]], field, x),
        declared_statuses(types, names, field).no_duplicates(),
    decreases names.len(),
{
    if names.len() > 0 {
        let rest = names.drop_last();
        lemma_statuses(types, rest, field, x);
        let few = declared_statuses(types, rest, field);
        let fields = types[names.last()].fields;
        if fields.contains_key(field) {
            lemma_gathered(few, fields[field].values(), x);
        }
        if exists|i: int| 0 <= i < rest.len() && declares(types[#[trigger] rest[i]], field, x) {
            let i = choose|i: int|
                0 <= i < rest.len() && declares(types[#[trigger] rest[i]], field, x);
            assert(declares(types[names[i]], field, x));
        }
        if declares(types[names.last()], field, x) {
            assert(declares(types[names[names.len() - 1]], field, x));
        }
        if exists|i: int| 0 <= i < names.len() && declares(types[#[trigger] names[i]], field, x) {
            let i = choose|i: int|
                0 <= i < names.len() && declares(types[#[trigger] names[i]], field, x);
            if i < rest.len() {
                assert(declares(types[rest[i]], field, x));
            }
        }
    }
}

/// Whether a task type declares a field with a value.
pub open spec fn declares(t: TaskTypeV, field: Seq<char>, value: Seq<char>) -> bool {
    t.fields.contains_key(field) && t.fields[field].values().contains(value)
}

/// The facts tell what the configuration holds. The statuses are the values that
/// some task type declares for the status field, each once; there is an entry for
/// each task type and each relationship type, by name; and open tasks are those
/// that are not closed.
pub proof fn facts_tell_the_configuration(
    config: Config,
    s: StatusSummary,
    x: Seq<char>,
)
    requires
        config.task_types.types@.dom().finite(),
        config.relationships.types@.dom().finite(),
        s.closed <= s.total,
    ensures
        ({
            let f = facts_of(config, s);
            let types = config.task_types.types@;
            let rels = config.relationships.types@;
            &&& f.status_field == config.workflow.status_field@
            &&& f.default_status == config.workflow.default_status@
            &&& f.done_status == config.workflow.done_status@
            &&& f.statuses.contains(x) <==> exists|t: Seq<char>| #[trigger]
                types.contains_key(t) && declares(types[t], config.workflow.status_field@, x)
            &&& f.statuses.no_duplicates()
            &&& types.contains_key(x) <==> exists|i: int|
                0 <= i < f.task_types.len() && (#[trigger] f.task_types[i]).name == x
                    && f.task_types[i].closed == types[x].closed
            &&& rels.contains_key(x) <==> exists|i: int|
                0 <= i < f.relationships.len() && (#[trigger] f.relationships[i]).name == x
                    && f.relationships[i].kind == rels[x].kind.name() && f.relationships[i].inverse
                    == rels[x].inverse
            &&& f.summary.total == s.total
            &&& f.summary.open + f.summary.closed == f.summary.total
            &&& f.summary.ready == s.ready
            &&& f.summary.blocked == s.blocked
            &&& f.summary.closed == s.closed
        }),
{
    let f = facts_of(config, s);
    let types = config.task_types.types@;
    let rels = config.relationships.types@;
    let field = config.workflow.status_field@;
    let names = strmap::sorted_of(types.dom());
    strmap::sorted_of_finite(types.dom());
    lemma_statuses(types, names, field, x);
    assert forall|t: Seq<char>| #[trigger] types.contains_key(t) <==> names.contains(t) by {
        assert(names.to_set().contains(t) <==> names.contains(t));
    }
    if f.statuses.contains(x) {
        let i = choose|i: int| 0 <= i < names.len() && declares(types[#[trigger] names[i]], field, x);
        assert(names.contains(names[i]));
        assert(types.contains_key(names[i]));
    }
    if exists|t: Seq<char>| #[trigger] types.contains_key(t) && declares(types[t], field, x) {
        let t = choose|t: Seq<char>| #[trigger]
            types.contains_key(t) && declares(types[t], field, x);
        let i = choose|i: int| 0 <= i < names.len() && names[i] == t;
        assert(declares(types[names[i]], field, x));
    }
    if types.contains_key(x) {
        let i = choose|i: int| 0 <= i < names.len() && names[i] == x;
        assert(f.task_types[i].name == x);
    }
    if exists|i: int| 0 <= i < f.task_types.len() && (#[trigger] f.task_types[i]).name == x {
        let i = choose|i: int| 0 <= i < f.task_types.len() && (#[trigger] f.task_types[i]).name == x;
        assert(names.contains(names[i]));
    }
    let kinds = strmap::sorted_of(rels.dom());
    strmap::sorted_of_finite(rels.dom());
    assert(kinds.to_set().contains(x) <==> kinds.contains(x));
    if rels.contains_key(x) {
        let i = choose|i: int| 0 <= i < kinds.len() && kinds[i] == x;
        assert(f.relationships[i].name == x);
    }
    if exists|i: int| 0 <= i < f.relationships.len() && (#[trigger] f.relationships[i]).name == x {
        let i = choose|i: int|
            0 <= i < f.relationships.len() && (#[trigger] f.relationships[i]).name == x;
        assert(kinds.contains(kinds[i]));
    }
}

/// The status to claim work with is neither the one that tasks start with nor the
/// done one, if one is declared that is neither: then the first such.
pub proof fn claims_are_in_progress(
    statuses: Seq<Seq<char>>,
    default: Seq<char>,
    done: Seq<char>,
    n: int,
)
    requires
        0 <= n < statuses.len(),
        statuses[n] != default,
        statuses[n] != done,
        forall|i: int| 0 <= i < n ==> #[trigger] statuses[i] == default || statuses[i] == done,
    ensures
        claim_of(statuses, default, done) == statuses[n],
    decreases n,
{
    if n > 0 {
        let rest = statuses.drop_first();
        assert(statuses[0] == default || statuses[0] == done);
        assert forall|i: int| 0 <= i < n - 1 implies #[trigger] rest[i] == default || rest[i]
            == done by {
            assert(rest[i] == statuses[i + 1]);
        }
        claims_are_in_progress(rest, default, done, n - 1);
    }
}

/// The relationship type of the examples gates, where one does: the first such.
pub proof fn examples_link_with_a_gate(rels: Seq<RelationshipFactsV>, n: int)
    requires
        0 <= n < rels.len(),
        rels[n].kind == "blocker"@ || rels[n].kind == "hierarchy"@,
        forall|i: int|
            0 <= i < n ==> (#[trigger] rels[i]).kind != "blocker"@ && rels[i].kind != "hierarchy"@,
    ensures
        gating_name(rels) == Some(rels[n].name),
    decreases n,
{
    if n > 0 {
        let rest = rels.drop_first();
        assert(rels[0].kind != "blocker"@ && rels[0].kind != "hierarchy"@);
        assert forall|i: int| 0 <= i < n - 1 implies (#[trigger] rest[i]).kind != "blocker"@
            && rest[i].kind != "hierarchy"@ by {
            assert(rest[i] == rels[i + 1]);
        }
        examples_link_with_a_gate(rest, n - 1);
    }
}

/// The example of a new task names the fields that it must have, but for the
/// status.
pub proof fn examples_name_required_fields(
    fields: Seq<FieldFactsV>,
    status: Seq<char>,
    token: Seq<char>,
)
    ensures
        required_tokens(fields, status).contains(token) <==> exists|i: int|
            0 <= i < fields.len() && (#[trigger] fields[i]).required && fields[i].name != status
                && token == fields[i].name + "=\"...\""@,
    decreases fields.len(),
{
    if fields.len() > 0 {
        let rest = fields.drop_last();
        let last = fields.last();
        examples_name_required_fields(rest, status, token);
        let few = required_tokens(rest, status);
        let all = required_tokens(fields, status);
        if last.required && last.name != status {
            assert(all.drop_last() =~= few);
            strmap::lemma_contains_last(all, token);
            assert(fields[fields.len() - 1] == last);
        }
        if few.contains(token) {
            let i = choose|i: int|
                0 <= i < rest.len() && (#[trigger] rest[i]).required && rest[i].name != status
                    && token == rest[i].name + "=\"...\""@;
            assert(fields[i].required);
        }
        if exists|i: int|
            0 <= i < fields.len() && (#[trigger] fields[i]).required && fields[i].name != status
                && token == fields[i].name + "=\"...\""@ {
            let i = choose|i: int|
                0 <= i < fields.len() && (#[trigger] fields[i]).required && fields[i].name != status
                    && token == fields[i].name + "=\"...\""@;
            if i < rest.len() {
                assert(rest[i].required);
            }
        }
    }
}

/// The examples of a guide: the first declared type with the fields that it must
/// have, a gating relationship, a status to claim work with, and a filter by a
/// field with given values; where nothing of the kind is declared, plain ones.
pub proof fn examples_fit_what_is_declared(f: PrimeFactsV)
    ensures
        ({
            let ex = examples_of(f);
            let fields = f.task_types[0].fields;
            &&& f.task_types.len() > 0 ==> ex.task_type == f.task_types[0].name
            &&& f.task_types.len() == 0 ==> ex.task_type == "task"@ && ex.req_example
                == "title=\"...\""@ && ex.filter == "'"@ + f.status_field + "!="@ + f.done_status
                + "'"@
            &&& f.task_types.len() > 0 && required_tokens(fields, f.status_field).len() > 0
                ==> ex.req_example == text::joined(required_tokens(fields, f.status_field), " "@)
            &&& ex.claim == claim_of(f.statuses, f.default_status, f.done_status)
            &&& gating_name(f.relationships) is Some ==> ex.blocker == gating_name(
                f.relationships,
            )->0
            &&& gating_name(f.relationships) is None && f.relationships.len() > 0 ==> ex.blocker
                == f.relationships[0].name
            &&& f.relationships.len() == 0 ==> ex.blocker == "depends_on"@
        }),
{
}

/// The filter of the examples goes by the first optional field with given values.
pub proof fn examples_filter_by_given_values(f: PrimeFactsV, n: int)
    requires
        f.task_types.len() > 0,
        0 <= n < f.task_types[0].fields.len(),
        !f.task_types[0].fields[n].required,
        f.task_types[0].fields[n].values.len() > 0,
        forall|i: int|
            0 <= i < n ==> (#[trigger] f.task_types[0].fields[i]).required
                || f.task_types[0].fields[i].values.len() == 0,
    ensures
        examples_of(f).filter == "'"@ + f.task_types[0].fields[n].name + "="@
            + f.task_types[0].fields[n].values[0] + "'"@,
{
    lemma_optional_enum(f.task_types[0].fields, n);
}

proof fn lemma_optional_enum(fields: Seq<FieldFactsV>, n: int)
    requires
        0 <= n < fields.len(),
        !fields[n].required && fields[n].values.len() > 0,
        forall|i: int|
            0 <= i < n ==> (#[trigger] fields[i]).required || fields[i].values.len() == 0,
    ensures
        optional_enum(fields) == Some(fields[n]),
    decreases n,
{
    if n > 0 {
        let rest = fields.drop_first();
        assert(fields[0].required || fields[0].values.len() == 0);
        assert forall|i: int| 0 <= i < n - 1 implies (#[trigger] rest[i]).required
            || rest[i].values.len() == 0 by {
            assert(rest[i] == fields[i + 1]);
        }
        assert(rest[n - 1] == fields[n]);
        lemma_optional_enum(rest, n - 1);
    }
}

} // verus!
