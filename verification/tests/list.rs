//! Criteria: how they are written, compiled and matched.

use taska::config::RelationshipConfig;
use taska::json::{parse_json, Json};
use taska::list::{
    compile_criterion, inverse_index, list_tasks, split_criterion, FilterCtx, FilterOp, ListQuery,
};
use taska::model::{MutationEvent, OpType, TaskState, Timestamp};
use taska::read::SchemaReading;
use taska::store::Store;
use taska::strmap::{Data, StrMap};

fn js(t: &str) -> Json {
    parse_json(t).unwrap()
}

fn task(id: &str, deps: &[&str], fields: &[(&str, &str)]) -> TaskState {
    let mut t = TaskState::blank(id);
    if !deps.is_empty() {
        t.relationships
            .insert("depends_on".to_string(), deps.iter().map(|s| s.to_string()).collect());
    }
    for (k, v) in fields {
        t.custom_fields.insert(k.to_string(), js(v));
    }
    t
}

fn matches_one(t: &TaskState, s: &str) -> bool {
    let types = RelationshipConfig::default().types;
    let ctx = FilterCtx { types: &types, rev: None };
    compile_criterion(s).ok().unwrap().matches(t, &ctx)
}

#[test]
fn filter_criteria_compile_and_match() {
    let t = task("api", &["db"], &[("status", "\"open\""), ("priority", "3")]);
    let matches = |s: &str| matches_one(&t, s);

    // Exact (JSON-coerced: number 3, not "3"), regex, negation.
    assert!(matches("status=open"));
    assert!(!matches("status=closed"));
    assert!(matches("priority=3"), "number coercion");
    assert!(matches(r"status=~^op"), "regex on string");
    assert!(matches(r"priority=~^3$"), "regex on number's string form");
    assert!(matches("status!=closed"));
    assert!(!matches("status!~^op"));

    // The regex operator is `=~`, its negation `!~`.
    assert_eq!(split_criterion("status=~^op").unwrap().1, FilterOp::Re);
    assert_eq!(split_criterion("status!~^op").unwrap().1, FilterOp::NotRe);
    // A bare `~` is no operator.
    assert!(compile_criterion("status~^op").is_err(), "bare ~ rejected");
    // `=`/`!=` still parse as themselves when no `~` follows.
    assert_eq!(split_criterion("status=open").unwrap().1, FilterOp::Eq);
    assert_eq!(split_criterion("status!=open").unwrap().1, FilterOp::Ne);

    // Built-in id and deps fields.
    assert!(matches("id=api"));
    assert!(matches("deps=db"));
    assert!(!matches("deps=missing"));

    // A negated criterion also holds when the field is absent entirely.
    assert!(matches("owner!=bob"), "absent field passes !=");
    assert!(matches("owner!~x"), "absent field passes !~");
    assert!(!matches("owner=bob"), "absent field fails =");

    // Parse errors: no operator, empty field, bad regex.
    assert!(compile_criterion("nooperator").is_err());
    assert!(compile_criterion("=value").is_err());
    assert!(compile_criterion("title=~[").is_err());

    // The first operator wins, so a regex value may contain operators.
    let (field, _, value) = split_criterion("title=~a=b").unwrap();
    assert_eq!((field.as_str(), value.as_str()), ("title", "a=b"));
}

#[test]
fn comparison_operators_compile_and_match() {
    let t = task(
        "api",
        &[],
        &[
            ("priority", "3"),
            ("title", "\"api server\""),
            ("created", "\"2026-06-05\""),
            // A composite (set/array) field value.
            ("scores", "[3, 8]"),
        ],
    );
    let matches = |s: &str| matches_one(&t, s);

    // Two-char vs one-char operators parse at the first operator byte.
    assert_eq!(split_criterion("priority>=4").unwrap().1, FilterOp::Ge);
    assert_eq!(split_criterion("priority>4").unwrap().1, FilterOp::Gt);
    assert_eq!(split_criterion("priority<=4").unwrap().1, FilterOp::Le);
    assert_eq!(split_criterion("priority<4").unwrap().1, FilterOp::Lt);

    // Numeric comparison (not lexical).
    assert!(matches("priority>2"));
    assert!(!matches("priority>3"), "strict >, equal value excluded");
    assert!(matches("priority>=3"), ">= includes the boundary");
    assert!(matches("priority<10"), "numeric, not lexical");
    assert!(matches("priority<=3"));
    assert!(!matches("priority<3"));

    // A cross-type compare never matches.
    assert!(!matches("priority>=x"), "number field vs string query");
    assert!(!matches("title>=3"), "string field vs number query");

    // String/date fields order lexicographically.
    assert!(matches("created>=2026-06-01"));
    assert!(matches("created<2026-07-01"));
    assert!(!matches("created>=2026-07-01"));
    assert!(matches("title>=ant"), "lexical string order");

    // An absent field offers no candidates, so every comparison is false.
    assert!(!matches("missing>0"));
    assert!(!matches("missing<=0"));

    // A set/array field compares element-wise: any member decides.
    assert!(matches("scores>=5"), "8 >= 5");
    assert!(matches("scores>1"), "both members exceed 1");
    assert!(matches("scores<100"));
    assert!(!matches("scores>10"), "no member > 10");
    assert!(!matches("scores<2"), "no member < 2");
}

#[test]
fn multivalued_fields_match_any_element() {
    let t = task("api", &[], &[("tags", "[\"urgent\", \"backend\"]"), ("scores", "[3, 8]")]);
    let m = |s: &str| matches_one(&t, s);

    // `=` is membership; `!=` holds when NOT a member (and when absent).
    assert!(m("tags=urgent"));
    assert!(m("tags=backend"));
    assert!(!m("tags=frontend"));
    assert!(m("tags!=frontend"), "frontend is not a member");
    assert!(!m("tags!=urgent"), "urgent IS a member");
    assert!(m("missing!=anything"), "absent field passes negation");

    // Regex runs per element: anchors bind to a member, not the JSON blob.
    assert!(m(r"tags=~^urgent$"));
    assert!(!m(r"tags=~,"), "no member contains the serialization comma");

    // Numeric comparison holds when any member qualifies.
    assert!(m("scores>=8"));
    assert!(!m("scores>8"));
    assert!(m("scores<5"), "3 < 5");
}

#[test]
fn relationship_type_and_inverse_names_resolve_as_filter_fields() {
    // epic has_subtask child; child depends_on lib; child relates_to other.
    let mut epic = task("epic", &[], &[]);
    epic.relationships.insert("has_subtask".to_string(), vec!["child".to_string()]);
    let mut child = task("child", &["lib"], &[]);
    child.relationships.insert("relates_to".to_string(), vec!["other".to_string()]);
    let lib = task("lib", &[], &[]);
    let other = task("other", &[], &[]);

    let types = RelationshipConfig::default().types;
    let mut state: StrMap<TaskState> = StrMap::new();
    for t in [&epic, &child, &lib, &other] {
        state.insert(t.id.clone(), t.copy());
    }
    let rev = inverse_index(&state, &types);
    let ctx = FilterCtx { types: &types, rev: Some(&rev) };
    let matches =
        |t: &TaskState, s: &str| compile_criterion(s).ok().unwrap().matches(t, &ctx);

    // Forward: the type name yields that type's targets, operators compose.
    assert!(matches(&child, "depends_on=lib"));
    assert!(!matches(&epic, "depends_on=lib"), "epic has no such edge");
    assert!(matches(&epic, "has_subtask=child"));
    assert!(matches(&child, r"depends_on=~^li"), "regex over targets");

    // Inverse names resolve the reverse direction.
    assert!(matches(&child, "subtask_of=epic"), "child's parent");
    assert!(matches(&lib, "blocks=child"), "lib blocks child");
    assert!(!matches(&other, "blocks=child"));

    // Symmetric relates_to matches from BOTH sides of the stored edge.
    assert!(matches(&child, "relates_to=other"), "forward direction");
    assert!(matches(&other, "relates_to=child"), "mirrored direction");

    // Negation keeps its absent-passes logic for edge fields too.
    assert!(matches(&lib, "subtask_of!=epic"), "lib is no subtask");
    assert!(!matches(&child, "subtask_of!=epic"));
}

#[test]
fn refusals_say_what_is_wrong() {
    let err = |s: &str| compile_criterion(s).err().unwrap();
    assert_eq!(err("=value"), "invalid criterion `=value`: empty field name");
    assert!(err("a~b").contains("the regex match operator is `=~`"));
    assert!(err("plain").starts_with("invalid criterion `plain`: expected field=value"));
    assert!(err("a=~[").starts_with("invalid regex `[`: "));
}

fn created(id: &str, seq: u64, fields: &[(&str, &str)]) -> MutationEvent {
    let mut payload = StrMap::new();
    for (k, v) in fields {
        payload.insert(k.to_string(), js(v));
    }
    let mut e = MutationEvent::new(OpType::Create, id, payload, Timestamp { secs: 0, nanos: 0 });
    e.seq = seq;
    e
}

fn edge(id: &str, target: &str, seq: u64) -> MutationEvent {
    let mut e = created(id, seq, &[("target", &format!("\"{target}\"")), ("rel", "\"depends_on\"")]);
    e.op = OpType::AddEdge;
    e
}

#[test]
fn listing_filters_by_openness_readiness_and_criteria() {
    let store = Store {
        config: taska::config::Config::default(),
        baseline: Vec::new(),
        mutations: vec![
            created("a", 1, &[("status", "\"closed\"")]),
            created("b", 2, &[("status", "\"todo\"")]),
            created("c", 3, &[("status", "\"todo\""), ("owner", "\"x\"")]),
            edge("c", "b", 4),
        ],
    };
    let schema = SchemaReading { report: Vec::new(), defaults: StrMap::new() };
    let ids = |criteria: &[&str], open: bool, ready: bool| -> Vec<String> {
        let criteria: Vec<String> = criteria.iter().map(|s| s.to_string()).collect();
        let query = ListQuery {
            criteria: &criteria,
            open,
            ready,
            display_columns: &Vec::new(),
            sort: "id",
            reverse: false,
        };
        let out = list_tasks(&store, &schema, &query).ok().unwrap();
        out.tasks.iter().map(|t| t.id.clone()).collect()
    };
    assert_eq!(ids(&[], false, false), ["a", "b", "c"]);
    assert_eq!(ids(&[], true, false), ["b", "c"]);
    assert_eq!(ids(&[], false, true), ["b"]);
    assert_eq!(ids(&["owner=x"], false, false), ["c"]);
    assert_eq!(ids(&["status=todo", "owner!=x"], false, false), ["b"]);
}
