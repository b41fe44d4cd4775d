//! The `key=value` words of a command line.

use crate::complete;
use crate::config::{Config, TaskTypeV, WorkflowConfig};
use crate::display;
use crate::engine;
use crate::graph;
use crate::json::{self, Json, JsonV};
use crate::list;
use crate::model::{
    self, EventV, FieldsV, MutationEvent, OpType, StateV, TaskState, TaskV, Timestamp, STATUS_KEY,
    TASK_TYPE_KEY,
};
use crate::strmap::{self, Data, StrMap, StrSet};
use crate::text;
use vstd::prelude::*;

verus! {

/// What a command line says to do to the fields of a task.
pub struct FieldOps {
    /// `key=value`: the values to set.
    pub set: StrMap<Json>,
    /// `key+=value`, in order.
    pub append: Vec<(String, Json)>,
    /// `key-=value`, in order.
    pub subtract: Vec<(String, Json)>,
    /// The words of the values that were set, as they were written.
    pub raw: StrMap<Json>,
}

/// The model of [`FieldOps`].
#[verifier::ext_equal]
pub struct FieldOpsV {
    pub set: FieldsV,
    pub append: Seq<(Seq<char>, JsonV)>,
    pub subtract: Seq<(Seq<char>, JsonV)>,
    pub raw: FieldsV,
}

impl View for FieldOps {
    type V = FieldOpsV;

    open spec fn view(&self) -> FieldOpsV {
        FieldOpsV {
            set: self.set@,
            append: self.append.deep_view(),
            subtract: self.subtract.deep_view(),
            raw: self.raw@,
        }
    }
}

/// What was read for a word that names a file or the standard input.
pub enum Content {
    /// The word names neither.
    Nothing,
    Text(String),
    /// The message of the failure.
    Failed(String),
}

/// The model of [`Content`].
pub enum ContentV {
    Nothing,
    Text(Seq<char>),
    Failed(Seq<char>),
}

impl DeepView for Content {
    type V = ContentV;

    open spec fn deep_view(&self) -> ContentV {
        match self {
            Content::Nothing => ContentV::Nothing,
            Content::Text(t) => ContentV::Text(t@),
            Content::Failed(e) => ContentV::Failed(e@),
        }
    }
}

/// The three operators.
#[derive(Clone, Copy, Debug, PartialEq, Eq, Structural)]
pub enum FieldOp {
    Assign,
    Append,
    Subtract,
}

/// The key and the operator before the `=`.
pub open spec fn key_op(part: Seq<char>) -> (Seq<char>, FieldOp) {
    if part.len() > 0 && part.last() == '+' {
        (part.drop_last(), FieldOp::Append)
    } else if part.len() > 0 && part.last() == '-' {
        (part.drop_last(), FieldOp::Subtract)
    } else {
        (part, FieldOp::Assign)
    }
}

/// The source a value names: what follows a single `@`.
pub open spec fn source_in(val: Seq<char>) -> Option<Seq<char>> {
    if val.len() > 0 && val[0] == '@' && !(val.len() > 1 && val[1] == '@') {
        Some(val.skip(1))
    } else {
        None
    }
}

/// `s` without one line break at its end.
pub open spec fn untailed(s: Seq<char>) -> Seq<char> {
    if s.len() > 0 && s.last() == '\n' {
        let t = s.drop_last();
        if t.len() > 0 && t.last() == '\r' {
            t.drop_last()
        } else {
            t
        }
    } else {
        s
    }
}

/// The value of a word: the text of its source, the literal behind `@@`, or a
/// JSON value, else the text itself.
pub open spec fn value_in(
    key: Seq<char>,
    val: Seq<char>,
    read: ContentV,
) -> Result<JsonV, Seq<char>> {
    match source_in(val) {
        Some(src) => match read {
            ContentV::Text(t) => Ok(JsonV::Str(untailed(t))),
            ContentV::Failed(e) => Err(
                if src == "-"@ {
                    e
                } else {
                    "cannot read `"@ + src + "` for field `"@ + key + "`: "@ + e
                },
            ),
            ContentV::Nothing => Ok(JsonV::Str(Seq::empty())),
        },
        None => if val.len() > 0 && val[0] == '@' {
            Ok(JsonV::Str(val.skip(1)))
        } else {
            Ok(list::coerced(val))
        },
    }
}

/// Nothing to do.
pub open spec fn no_ops() -> FieldOpsV {
    FieldOpsV { set: Map::empty(), append: Seq::empty(), subtract: Seq::empty(), raw: Map::empty() }
}

/// One more word.
pub open spec fn with_word(ops: FieldOpsV, word: Seq<char>, read: ContentV) -> Result<
    FieldOpsV,
    Seq<char>,
> {
    match text::halves(word, '=') {
        None => Err(
            "invalid field `"@ + word + "` (expected key=value, key+=value, or key-=value)"@,
        ),
        Some((part, val)) => {
            let (key, op) = key_op(part);
            if key.len() == 0 {
                Err("invalid field `"@ + word + "`: empty field name"@)
            } else if model::reserved_keys().contains(key) {
                Err("`"@ + key + "` is a reserved or computed field and can't be set directly"@)
            } else {
                match value_in(key, val, read) {
                    Err(e) => Err(e),
                    Ok(v) => Ok(
                        match op {
                            FieldOp::Append => FieldOpsV { append: ops.append.push((key, v)), ..ops },
                            FieldOp::Subtract => FieldOpsV {
                                subtract: ops.subtract.push((key, v)),
                                ..ops
                            },
                            FieldOp::Assign => FieldOpsV {
                                set: ops.set.insert(key, v),
                                raw: if val.len() > 0 && val[0] == '@' {
                                    ops.raw
                                } else {
                                    ops.raw.insert(key, JsonV::Str(val))
                                },
                                ..ops
                            },
                        },
                    ),
                }
            }
        },
    }
}

/// What the words say, or what is wrong with the first bad one.
pub open spec fn ops_of(words: Seq<Seq<char>>, reads: Seq<ContentV>) -> Result<FieldOpsV, Seq<char>>
    decreases words.len(),
{
    if words.len() == 0 {
        Ok(no_ops())
    } else {
        match ops_of(words.drop_last(), reads) {
            Ok(ops) => with_word(ops, words.last(), reads[words.len() - 1]),
            Err(e) => Err(e),
        }
    }
}

fn split_key(part: &str) -> (r: (String, FieldOp))
    ensures
        (r.0@, r.1) == key_op(part@),
{
    let v = text::chars_of(part);
    let n = v.len();
    if n > 0 && (v[n - 1] == '+' || v[n - 1] == '-') {
        let key = text::text_of(&v, 0, n - 1);
        assert(key@ =~= part@.drop_last());
        (key, if v[n - 1] == '+' { FieldOp::Append } else { FieldOp::Subtract })
    } else {
        (String::from_str(part), FieldOp::Assign)
    }
}

/// The file, or `-` for the standard input, that a value names.
pub fn value_source(val: &str) -> (r: Option<String>)
    ensures
        r.deep_view() == source_in(val@),
{
    let v = text::chars_of(val);
    if v.len() > 0 && v[0] == '@' && !(v.len() > 1 && v[1] == '@') {
        let src = text::text_of(&v, 1, v.len());
        assert(src@ =~= val@.skip(1));
        Some(src)
    } else {
        None
    }
}

/// What has to be read for a word.
pub fn word_source(word: &str) -> (r: Option<String>)
    ensures
        r.deep_view() == (match text::halves(word@, '=') {
            Some((part, val)) => source_in(val),
            None => None,
        }),
{
    match text::split_once(word, '=') {
        Some((part, val)) => value_source(val.as_str()),
        None => None,
    }
}

/// `s` without one line break at its end.
pub fn trim_tail(s: &str) -> (r: String)
    ensures
        r@ == untailed(s@),
{
    let v = text::chars_of(s);
    let mut n: usize = v.len();
    if n > 0 && v[n - 1] == '\n' {
        n -= 1;
        if n > 0 && v[n - 1] == '\r' {
            n -= 1;
        }
    }
    let r = text::text_of(&v, 0, n);
    assert(r@ =~= untailed(s@));
    r
}

/// The value of one word, given what was read for it.
pub fn field_value(key: &str, val: &str, read: &Content) -> (r: Result<Json, String>)
    ensures
        value_in(key@, val@, read.deep_view()) == (match r {
            Ok(v) => Ok::<JsonV, Seq<char>>(v@),
            Err(e) => Err::<JsonV, Seq<char>>(e@),
        }),
{
    match value_source(val) {
        Some(src) => match read {
            Content::Text(t) => Ok(Json::Str(trim_tail(t.as_str()))),
            Content::Failed(e) => if text::same_text(src.as_str(), "-") {
                Err(e.clone())
            } else {
                Err(
                    text::cat6(
                        "cannot read `",
                        src.as_str(),
                        "` for field `",
                        key,
                        "`: ",
                        e.as_str(),
                    ),
                )
            },
            Content::Nothing => {
                let none = String::new();
                assert(none@ =~= Seq::<char>::empty());
                Ok(Json::Str(none))
            },
        },
        None => {
            let v = text::chars_of(val);
            if v.len() > 0 && v[0] == '@' {
                let rest = text::text_of(&v, 1, v.len());
                assert(rest@ =~= val@.skip(1));
                Ok(Json::Str(rest))
            } else {
                Ok(list::json_or_string(val))
            }
        },
    }
}

/// Reads the words of a command line. `reads` holds what was read for each of
/// them.
pub fn parse_field_ops(fields: &Vec<String>, reads: &Vec<Content>) -> (r: Result<FieldOps, String>)
    requires
        reads.len() == fields.len(),
    ensures
        ops_of(fields.deep_view(), reads.deep_view()) == (match r {
            Ok(ops) => Ok::<FieldOpsV, Seq<char>>(ops@),
            Err(e) => Err::<FieldOpsV, Seq<char>>(e@),
        }),
{
    let ghost words = fields.deep_view();
    let ghost contents = reads.deep_view();
    let mut ops = FieldOps {
        set: StrMap::new(),
        append: Vec::new(),
        subtract: Vec::new(),
        raw: StrMap::new(),
    };
    let mut i: usize = 0;
    assert(words.take(0) =~= Seq::empty());
    assert(ops@ =~= no_ops());
    while i < fields.len()
        invariant
            i <= fields.len(),
            reads.len() == fields.len(),
            words == fields.deep_view(),
            contents == reads.deep_view(),
            ops_of(words.take(i as int), contents) == Ok::<FieldOpsV, Seq<char>>(ops@),
        decreases fields.len() - i,
    {
        let ghost longer = words.take(i as int + 1);
        let ghost before = ops@;
        assert(longer.drop_last() =~= words.take(i as int));
        let word = fields[i].as_str();
        assert(longer.last() == word@);
        assert(contents[i as int] == reads@[i as int].deep_view());
        let ghost now = with_word(before, word@, contents[i as int]);
        assert(ops_of(longer, contents) == now);
        let parsed = text::split_once(word, '=');
        let (part, val) = match parsed {
            Some(halves) => halves,
            None => {
                proof {
                    lemma_error_stays(words, contents, i as int + 1);
                }
                return Err(
                    text::cat3(
                        "invalid field `",
                        word,
                        "` (expected key=value, key+=value, or key-=value)",
                    ),
                );
            },
        };
        let (key, op) = split_key(part.as_str());
        if text::is_blank(key.as_str()) {
            proof {
                lemma_error_stays(words, contents, i as int + 1);
            }
            return Err(text::cat3("invalid field `", word, "`: empty field name"));
        }
        if model::is_reserved(key.as_str()) {
            proof {
                lemma_error_stays(words, contents, i as int + 1);
            }
            return Err(
                text::cat3(
                    "`",
                    key.as_str(),
                    "` is a reserved or computed field and can't be set directly",
                ),
            );
        }
        let value = match field_value(key.as_str(), val.as_str(), &reads[i]) {
            Ok(v) => v,
            Err(e) => {
                proof {
                    lemma_error_stays(words, contents, i as int + 1);
                }
                return Err(e);
            },
        };
        match op {
            FieldOp::Append => {
                let ghost v = value@;
                let ghost k = key@;
                ops.append.push((key, value));
                assert(ops.append.deep_view() =~= before.append.push((k, v)));
            },
            FieldOp::Subtract => {
                let ghost v = value@;
                let ghost k = key@;
                ops.subtract.push((key, value));
                assert(ops.subtract.deep_view() =~= before.subtract.push((k, v)));
            },
            FieldOp::Assign => {
                let chars = text::chars_of(val.as_str());
                if !(chars.len() > 0 && chars[0] == '@') {
                    ops.raw.insert(key.clone(), Json::Str(val));
                }
                ops.set.insert(key, value);
            },
        }
        assert(now == Ok::<FieldOpsV, Seq<char>>(ops@));
        i += 1;
    }
    assert(words.take(words.len() as int) =~= words);
    Ok(ops)
}

/// The first bad word decides.
proof fn lemma_error_stays(words: Seq<Seq<char>>, reads: Seq<ContentV>, n: int)
    requires
        0 <= n <= words.len(),
        ops_of(words.take(n), reads) is Err,
    ensures
        ops_of(words, reads) == ops_of(words.take(n), reads),
    decreases words.len() - n,
{
    if n < words.len() {
        let longer = words.take(n + 1);
        assert(longer.drop_last() =~= words.take(n));
        lemma_error_stays(words, reads, n + 1);
    } else {
        assert(words.take(n) =~= words);
    }
}

/// Refuses to take anything from the fields of a new task.
pub fn nothing_to_remove(ops: &FieldOps) -> (r: Result<(), String>)
    ensures
        r is Ok <==> ops.subtract.len() == 0,
        r matches Err(m) ==> m@ == "`"@ + ops.subtract@[0].0@
            + "-=...` is meaningless on create: a new task has nothing to remove from"@,
{
    if ops.subtract.len() == 0 {
        Ok(())
    } else {
        Err(
            text::cat3(
                "`",
                ops.subtract[0].0.as_str(),
                "-=...` is meaningless on create: a new task has nothing to remove from",
            ),
        )
    }
}

/// The names of the fields that the tasks hold.
pub fn used_fields(state: &StrMap<TaskState>) -> (r: StrSet)
    ensures
        r@ == complete::used_fields(state@),
{
    let ghost s = state@;
    let ghost keys = state.keys_view();
    let n = state.len();
    let mut out = StrSet::new();
    let mut i: usize = 0;
    while i < n
        invariant
            i <= n,
            n == keys.len(),
            s == state@,
            keys == state.keys_view(),
            keys.to_set() == s.dom(),
            forall|k: Seq<char>| #[trigger]
                out@.contains(k) <==> exists|j: int|
                    0 <= j < i && s[#[trigger] keys[j]].custom_fields.contains_key(k),
        decreases n - i,
    {
        let ghost had = out@;
        display::add_keys(&mut out, state.value_at(i));
        proof {
            assert forall|k: Seq<char>| #[trigger] out@.contains(k) <==> exists|j: int|
                0 <= j < i + 1 && s[#[trigger] keys[j]].custom_fields.contains_key(k) by {
                assert(had.contains(k) <==> exists|j: int|
                    0 <= j < i && s[#[trigger] keys[j]].custom_fields.contains_key(k));
                if s[keys[i as int]].custom_fields.contains_key(k) {
                    assert(0 <= i < i + 1);
                }
            }
        }
        i += 1;
    }
    proof {
        assert forall|k: Seq<char>| out@.contains(k) <==> complete::used_fields(s).contains(k) by {
            if out@.contains(k) {
                let j = choose|j: int|
                    0 <= j < n && s[#[trigger] keys[j]].custom_fields.contains_key(k);
                assert(keys.to_set().contains(keys[j]));
                assert(s.contains_key(keys[j]));
            }
            if complete::used_fields(s).contains(k) {
                let id = choose|id: Seq<char>| #[trigger]
                    s.contains_key(id) && s[id].custom_fields.contains_key(k);
                assert(keys.to_set().contains(id));
                let j = choose|j: int| 0 <= j < keys.len() && keys[j] == id;
                assert(s[keys[j]].custom_fields.contains_key(k));
            }
        }
        assert(out@ =~= complete::used_fields(s));
    }
    out
}

/// Whether the payload of such an event holds fields.
pub open spec fn holds_fields(op: OpType) -> bool {
    op == OpType::Create || op == OpType::Update || op == OpType::Append
}

/// The field names that events write.
pub open spec fn written_names(events: Seq<EventV>) -> Set<Seq<char>>
    decreases events.len(),
{
    if events.len() == 0 {
        Set::empty()
    } else {
        let rest = written_names(events.drop_last());
        let e = events.last();
        if holds_fields(e.op) {
            rest.union(e.payload.dom())
        } else {
            rest
        }
    }
}

/// The field names that events write and that are not known, in order.
pub open spec fn introduced(events: Seq<EventV>, known: Set<Seq<char>>) -> Seq<Seq<char>> {
    strmap::sorted_of(written_names(events).difference(known))
}

/// The field names that events write and that are not known.
pub fn introduced_fields(events: &Vec<MutationEvent>, known: &StrSet) -> (r: Vec<String>)
    ensures
        r.deep_view() == introduced(events.deep_view(), known@),
{
    let ghost all = events.deep_view();
    let mut out = StrSet::new();
    let mut i: usize = 0;
    assert(all.take(0) =~= Seq::empty());
    assert(out@ =~= written_names(all.take(0)).difference(known@));
    while i < events.len()
        invariant
            i <= events.len(),
            all == events.deep_view(),
            out@ == written_names(all.take(i as int)).difference(known@),
        decreases events.len() - i,
    {
        let ghost longer = all.take(i as int + 1);
        let ghost had = out@;
        let e = &events[i];
        assert(longer.drop_last() =~= all.take(i as int));
        assert(longer.last() == e@);
        let holds = match e.op {
            OpType::Create | OpType::Update | OpType::Append => true,
            _ => false,
        };
        if holds {
            let ghost names = e.payload.keys_view();
            let n = e.payload.len();
            let mut j: usize = 0;
            assert(out@ =~= had.union(names.take(0).to_set().difference(known@)));
            while j < n
                invariant
                    j <= n,
                    n == names.len(),
                    names == e.payload.keys_view(),
                    out@ == had.union(names.take(j as int).to_set().difference(known@)),
                decreases n - j,
            {
                let name = e.payload.key_at(j);
                if !known.contains(name.as_str()) {
                    out.insert(name.clone());
                }
                proof {
                    let more = had.union(names.take(j as int + 1).to_set().difference(known@));
                    assert forall|k: Seq<char>| #[trigger]
                        out@.contains(k) <==> more.contains(k) by {
                        strmap::lemma_take_one_more(names, j as int, k);
                    }
                    assert(out@ =~= more);
                }
                j += 1;
            }
            assert(names.take(n as int) =~= names);
            assert(out@ =~= written_names(longer).difference(known@));
        }
        i += 1;
    }
    assert(all.take(all.len() as int) =~= all);
    graph::members_of(&out)
}

/// The field names that the task types declare.
pub open spec fn declared_names(types: Map<Seq<char>, TaskTypeV>) -> Set<Seq<char>> {
    Set::new(
        |k: Seq<char>|
            exists|t: Seq<char>| #[trigger] types.contains_key(t) && types[t].fields.contains_key(k),
    )
}

/// The field names that a store knows: those in use, those that a task type
/// declares, the status and the type.
pub open spec fn known_names(config: Config, s: StateV) -> Set<Seq<char>> {
    complete::used_fields(s).union(declared_names(config.task_types.types@)).insert(
        STATUS_KEY@,
    ).insert(TASK_TYPE_KEY@)
}

/// The field names that a store knows.
pub fn known_fields(config: &Config, state: &StrMap<TaskState>) -> (r: StrSet)
    ensures
        r@ == known_names(*config, state@),
{
    let mut out = used_fields(state);
    let ghost used = out@;
    let types = &config.task_types.types;
    let ghost tv = types@;
    let ghost keys = types.keys_view();
    let n = types.len();
    let mut i: usize = 0;
    while i < n
        invariant
            i <= n,
            n == keys.len(),
            tv == types@,
            keys == types.keys_view(),
            keys.to_set() == tv.dom(),
            forall|k: Seq<char>| #[trigger]
                out@.contains(k) <==> used.contains(k) || exists|j: int|
                    0 <= j < i && tv[#[trigger] keys[j]].fields.contains_key(k),
        decreases n - i,
    {
        let fields = &types.value_at(i).fields;
        let m = fields.len();
        let ghost names = fields.keys_view();
        let ghost had = out@;
        let mut j: usize = 0;
        assert(out@ =~= had.union(names.take(0).to_set()));
        while j < m
            invariant
                j <= m,
                m == names.len(),
                names == fields.keys_view(),
                out@ == had.union(names.take(j as int).to_set()),
            decreases m - j,
        {
            out.insert(fields.key_at(j).clone());
            proof {
                let longer = names.take(j as int + 1);
                assert forall|k: Seq<char>| #[trigger]
                    had.union(longer.to_set()).contains(k) <==> out@.contains(k) by {
                    strmap::lemma_take_one_more(names, j as int, k);
                }
                assert(out@ =~= had.union(longer.to_set()));
            }
            j += 1;
        }
        proof {
            assert(names.take(m as int) =~= names);
            assert(tv[keys[i as int]].fields == fields.deep_view());
            assert forall|k: Seq<char>| #[trigger] out@.contains(k) <==> used.contains(k) || exists|
                j: int,
            | 0 <= j < i + 1 && tv[#[trigger] keys[j]].fields.contains_key(k) by {
                assert(had.contains(k) <==> used.contains(k) || exists|j: int|
                    0 <= j < i && tv[#[trigger] keys[j]].fields.contains_key(k));
                assert(names.to_set().contains(k) <==> tv[keys[i as int]].fields.contains_key(k));
                if tv[keys[i as int]].fields.contains_key(k) {
                    assert(0 <= i < i + 1);
                }
            }
        }
        i += 1;
    }
    proof {
        assert forall|k: Seq<char>| out@.contains(k) <==> used.union(
            declared_names(tv),
        ).contains(k) by {
            if declared_names(tv).contains(k) {
                let t = choose|t: Seq<char>| #[trigger]
                    tv.contains_key(t) && tv[t].fields.contains_key(k);
                assert(keys.to_set().contains(t));
                let j = choose|j: int| 0 <= j < keys.len() && keys[j] == t;
                assert(tv[keys[j]].fields.contains_key(k));
            }
            if out@.contains(k) && !used.contains(k) {
                let j = choose|j: int| 0 <= j < n && tv[#[trigger] keys[j]].fields.contains_key(k);
                assert(keys.to_set().contains(keys[j]));
                assert(tv.contains_key(keys[j]));
            }
        }
        assert(out@ =~= used.union(declared_names(tv)));
    }
    out.insert(String::from_str(STATUS_KEY));
    out.insert(String::from_str(TASK_TYPE_KEY));
    out
}

/// Why a write that brings in new field names is refused.
pub open spec fn unknown_names_text(names: Seq<Seq<char>>) -> Seq<char> {
    "no task uses the field name(s) "@ + text::joined(names, ", "@)
        + " yet - check the spelling, or pass --new-field to add them"@
}

/// Whether the field names that events bring in are refused: they are not
/// allowed, and there is a task already; the first one gives the names.
pub open spec fn names_refused(
    events: Seq<EventV>,
    s: StateV,
    config: Config,
    allow: bool,
) -> bool {
    !allow && s != Map::<Seq<char>, TaskV>::empty() && introduced(
        events,
        known_names(config, s),
    ).len() > 0
}

/// The field names that events bring in, unless they are refused.
pub fn vet_new_fields(
    events: &Vec<MutationEvent>,
    state: &StrMap<TaskState>,
    config: &Config,
    allow: bool,
) -> (r: Result<Vec<String>, String>)
    ensures
        ({
            let names = introduced(events.deep_view(), known_names(*config, state@));
            let refused = names_refused(events.deep_view(), state@, *config, allow);
            match r {
                Ok(v) => !refused && v.deep_view() == names,
                Err(m) => refused && m@ == unknown_names_text(names),
            }
        }),
{
    let names = introduced_fields(events, &known_fields(config, state));
    assert(names.deep_view().len() == names.len());
    if !allow && !state.is_empty() && names.len() > 0 {
        return Err(
            text::cat3(
                "no task uses the field name(s) ",
                text::join(&names, ", ").as_str(),
                " yet - check the spelling, or pass --new-field to add them",
            ),
        );
    }
    Ok(names)
}

/// The name that a field is stored under.
pub open spec fn stored_name(name: Seq<char>, status: Seq<char>, kind: Seq<char>) -> Seq<char> {
    if name == status {
        STATUS_KEY@
    } else if name == kind {
        TASK_TYPE_KEY@
    } else {
        name
    }
}

/// Whether some pair is about the status or the type, which hold one value.
pub open spec fn single_valued(pairs: Seq<(Seq<char>, JsonV)>, status: Seq<char>, kind: Seq<char>) -> bool {
    exists|i: int|
        0 <= i < pairs.len() && (stored_name((#[trigger] pairs[i]).0, status, kind) == STATUS_KEY@
            || stored_name(pairs[i].0, status, kind) == TASK_TYPE_KEY@)
}

/// Gives the fields of `+=` and `-=` words the names they are stored under. The
/// status and the type hold one value, so that such words are refused for them.
pub fn canonicalize_field_pairs(pairs: &Vec<(String, Json)>, workflow: &WorkflowConfig) -> (r: Result<
    Vec<(String, Json)>,
    String,
>)
    ensures
        ({
            let (status, kind) = (workflow.status_field@, workflow.type_field@);
            match r {
                Ok(v) => !single_valued(pairs.deep_view(), status, kind) && v.deep_view()
                    == pairs.deep_view().map_values(
                    |p: (Seq<char>, JsonV)| (stored_name(p.0, status, kind), p.1),
                ),
                Err(m) => single_valued(pairs.deep_view(), status, kind) && m@ == SINGLE_VALUED@,
            }
        }),
{
    let ghost all = pairs.deep_view();
    let ghost (status, kind) = (workflow.status_field@, workflow.type_field@);
    let mut out: Vec<(String, Json)> = Vec::new();
    let mut i: usize = 0;
    while i < pairs.len()
        invariant
            i <= pairs.len(),
            all == pairs.deep_view(),
            (status, kind) == (workflow.status_field@, workflow.type_field@),
            out.len() == i,
            forall|j: int|
                0 <= j < i ==> (#[trigger] all[j]).0 == out@[j].0@ && all[j].1 == out@[j].1@
                    && stored_name(all[j].0, status, kind) == all[j].0 && all[j].0 != STATUS_KEY@
                    && all[j].0 != TASK_TYPE_KEY@,
        decreases pairs.len() - i,
    {
        let name = pairs[i].0.as_str();
        assert(all[i as int] == (pairs@[i as int].0@, pairs@[i as int].1@));
        if text::same_text(name, workflow.status_field.as_str()) || text::same_text(
            name,
            workflow.type_field.as_str(),
        ) || text::same_text(name, STATUS_KEY) || text::same_text(name, TASK_TYPE_KEY) {
            assert(stored_name(all[i as int].0, status, kind) == STATUS_KEY@ || stored_name(
                all[i as int].0,
                status,
                kind,
            ) == TASK_TYPE_KEY@);
            return Err(String::from_str(SINGLE_VALUED));
        }
        out.push((pairs[i].0.clone(), pairs[i].1.copy()));
        i += 1;
    }
    assert(out.deep_view() =~= all.map_values(
        |p: (Seq<char>, JsonV)| (stored_name(p.0, status, kind), p.1),
    ));
    Ok(out)
}

/// Why `+=` and `-=` are refused for the status and the type.
pub const SINGLE_VALUED: &'static str =
    "the status and the task type hold one value; set them with `=`";

/// The fields of a new task: the values that are set, and what is appended to
/// them, in order.
pub open spec fn with_appended(set: FieldsV, pairs: Seq<(Seq<char>, JsonV)>) -> FieldsV
    decreases pairs.len(),
{
    if pairs.len() == 0 {
        set
    } else {
        engine::append_fields(
            with_appended(set, pairs.drop_last()),
            map![pairs.last().0 => pairs.last().1],
        )
    }
}

/// The fields of a new task.
pub fn initial_fields(set: StrMap<Json>, pairs: &Vec<(String, Json)>) -> (r: StrMap<Json>)
    ensures
        r@ == with_appended(set@, pairs.deep_view()),
{
    let ghost all = pairs.deep_view();
    let ghost start = set@;
    let mut out = set;
    let mut i: usize = 0;
    assert(all.take(0) =~= Seq::empty());
    while i < pairs.len()
        invariant
            i <= pairs.len(),
            all == pairs.deep_view(),
            out@ == with_appended(start, all.take(i as int)),
        decreases pairs.len() - i,
    {
        let ghost longer = all.take(i as int + 1);
        assert(longer.drop_last() =~= all.take(i as int));
        assert(longer.last() == (pairs@[i as int].0@, pairs@[i as int].1@));
        let mut one: StrMap<Json> = StrMap::new();
        one.insert(pairs[i].0.clone(), pairs[i].1.copy());
        assert(one@ =~= map![longer.last().0 => longer.last().1]);
        engine::apply_append(&mut out, &one);
        i += 1;
    }
    assert(all.take(all.len() as int) =~= all);
    out
}

/// The drafts of an update of fields: the ones to set in one event, then one
/// event for each append.
pub open spec fn field_drafts(
    id: Seq<char>,
    set: FieldsV,
    pairs: Seq<(Seq<char>, JsonV)>,
    at: Timestamp,
) -> Seq<EventV> {
    let first: Seq<EventV> = if set == Map::<Seq<char>, JsonV>::empty() {
        Seq::empty()
    } else {
        seq![model::draft(OpType::Update, id, set, at)]
    };
    first + pairs.map_values(
        |p: (Seq<char>, JsonV)| model::draft(OpType::Append, id, map![p.0 => p.1], at),
    )
}

/// The drafts of an update of fields.
pub fn field_events(
    id: &str,
    set: StrMap<Json>,
    pairs: &Vec<(String, Json)>,
    at: Timestamp,
) -> (r: Vec<MutationEvent>)
    ensures
        r.deep_view() == field_drafts(id@, set@, pairs.deep_view(), at),
{
    let ghost all = pairs.deep_view();
    let ghost one = |p: (Seq<char>, JsonV)|
        model::draft(OpType::Append, id@, map![p.0 => p.1], at);
    let ghost first: Seq<EventV> = if set@ == Map::<Seq<char>, JsonV>::empty() {
        Seq::empty()
    } else {
        seq![model::draft(OpType::Update, id@, set@, at)]
    };
    let mut out: Vec<MutationEvent> = Vec::new();
    if !set.is_empty() {
        out.push(MutationEvent::new(OpType::Update, id, set, at));
    }
    assert(out.deep_view() =~= first);
    assert(all.take(0).map_values(one) =~= Seq::empty());
    let mut i: usize = 0;
    while i < pairs.len()
        invariant
            i <= pairs.len(),
            all == pairs.deep_view(),
            one == (|p: (Seq<char>, JsonV)|
                model::draft(OpType::Append, id@, map![p.0 => p.1], at)),
            out.deep_view() == first + all.take(i as int).map_values(one),
        decreases pairs.len() - i,
    {
        let ghost had = out.deep_view();
        let mut payload: StrMap<Json> = StrMap::new();
        payload.insert(pairs[i].0.clone(), pairs[i].1.copy());
        assert(payload@ =~= map![all[i as int].0 => all[i as int].1]);
        let e = MutationEvent::new(OpType::Append, id, payload, at);
        assert(e@ == one(all[i as int]));
        out.push(e);
        assert(out.deep_view() =~= had.push(one(all[i as int])));
        assert(all.take(i as int + 1).map_values(one) =~= all.take(i as int).map_values(one).push(
            one(all[i as int]),
        ));
        assert(out.deep_view() =~= first + all.take(i as int + 1).map_values(one));
        i += 1;
    }
    assert(all.take(all.len() as int) =~= all);
    out
}

/// Refuses to subtract: only a declared field can say what that means.
pub fn nothing_to_subtract(pairs: &Vec<(String, Json)>) -> (r: Result<(), String>)
    ensures
        pairs.len() == 0 ==> r is Ok,
        pairs.len() > 0 ==> (r matches Err(m) && m@ == "`"@ + pairs.deep_view()[0].0
            + "-=...` needs a declared number or set field"@),
{
    if pairs.len() == 0 {
        Ok(())
    } else {
        Err(text::cat3("`", pairs[0].0.as_str(), "-=...` needs a declared number or set field"))
    }
}

/// A field word reads back. `key=value` sets the key and leaves the other sets,
/// appends and removals as they are; `key+=value` appends and `key-=value`
/// removes, after those before. A value is JSON where it is that and its own text
/// otherwise; `@@` stands for an `@` that is meant as one.
pub proof fn field_words_read_back(
    ops: FieldOpsV,
    key: Seq<char>,
    val: Seq<char>,
    read: ContentV,
)
    requires
        key.len() > 0,
        !key.contains('='),
        key.last() != '+',
        key.last() != '-',
        !model::reserved_keys().contains(key),
        val.len() > 0 ==> val[0] != '@',
    ensures
        ({
            let v = match json::json_parsed(val) {
                Ok(v) => v,
                Err(_) => JsonV::Str(val),
            };
            &&& with_word(ops, key + seq!['='] + val, read) == Ok::<FieldOpsV, Seq<char>>(
                (FieldOpsV {
                    set: ops.set.insert(key, v),
                    append: ops.append,
                    subtract: ops.subtract,
                    raw: ops.raw.insert(key, JsonV::Str(val)),
                }),
            )
            &&& with_word(ops, key + seq!['+', '='] + val, read) == Ok::<FieldOpsV, Seq<char>>(
                (FieldOpsV {
                    set: ops.set,
                    append: ops.append.push((key, v)),
                    subtract: ops.subtract,
                    raw: ops.raw,
                }),
            )
            &&& with_word(ops, key + seq!['-', '='] + val, read) == Ok::<FieldOpsV, Seq<char>>(
                (FieldOpsV {
                    set: ops.set,
                    append: ops.append,
                    subtract: ops.subtract.push((key, v)),
                    raw: ops.raw,
                }),
            )
            &&& with_word(ops, key + seq!['=', '@', '@'] + val, read) == Ok::<
                FieldOpsV,
                Seq<char>,
            >(
                (FieldOpsV {
                    set: ops.set.insert(key, JsonV::Str(seq!['@'] + val)),
                    append: ops.append,
                    subtract: ops.subtract,
                    raw: ops.raw,
                }),
            )
            &&& with_word(ops, key, read) is Err
            &&& with_word(ops, seq!['='] + val, read) is Err
        }),
{
    text::halves_meet_at_the_first(key, val, '=');
    text::halves_meet_at_the_first(key, seq!['@', '@'] + val, '=');
    assert(key + seq!['='] + (seq!['@', '@'] + val) =~= key + seq!['=', '@', '@'] + val);
    assert((seq!['@', '@'] + val).skip(1) =~= seq!['@'] + val);
    let plus = key.push('+');
    let minus = key.push('-');
    assert forall|i: int| 0 <= i < plus.len() implies plus[i] != '=' && minus[i] != '=' by {
        if i < key.len() {
            assert(plus[i] == key[i] && minus[i] == key[i]);
            assert(key.contains(key[i]));
        }
    }
    text::halves_meet_at_the_first(plus, val, '=');
    text::halves_meet_at_the_first(minus, val, '=');
    assert(plus + seq!['='] + val =~= key + seq!['+', '='] + val);
    assert(minus + seq!['='] + val =~= key + seq!['-', '='] + val);
    assert(plus.drop_last() =~= key);
    assert(minus.drop_last() =~= key);
    let none = Seq::<char>::empty();
    text::halves_meet_at_the_first(none, val, '=');
    assert(none + seq!['='] + val =~= seq!['='] + val);
}

/// A value `@name` is the content of what it names, without the line break at
/// its end; content that could not be read is an error.
pub proof fn named_content_is_the_value(key: Seq<char>, src: Seq<char>, t: Seq<char>)
    requires
        src.len() == 0 || src[0] != '@',
    ensures
        source_in(seq!['@'] + src) == Some(src),
        value_in(key, seq!['@'] + src, ContentV::Text(t)) == Ok::<JsonV, Seq<char>>(
            JsonV::Str(untailed(t)),
        ),
        value_in(key, seq!['@'] + src, ContentV::Failed(t)) is Err,
{
    assert((seq!['@'] + src).skip(1) =~= src);
}

/// One line break goes off the end of a text that is read, in either form; a text
/// without one stays as it is.
pub proof fn one_line_break_is_dropped(s: Seq<char>)
    ensures
        untailed(s + seq!['\r', '\n']) == s,
        s.len() == 0 || s.last() != '\r' ==> untailed(s + seq!['\n']) == s,
        s.len() == 0 || s.last() != '\n' ==> untailed(s) == s,
{
    let a = s + seq!['\r', '\n'];
    assert(a.drop_last().drop_last() =~= s);
    assert(a.drop_last().last() == '\r');
    let b = s + seq!['\n'];
    assert(b.drop_last() =~= s);
}

/// The field names that a change writes are those of its creates, updates and
/// appends; the others write edges or nothing.
pub proof fn writes_name_their_fields(events: Seq<EventV>, k: Seq<char>)
    ensures
        written_names(events).contains(k) <==> exists|i: int|
            0 <= i < events.len() && (#[trigger] events[i]).payload.contains_key(k) && (events[i].op
                == OpType::Create || events[i].op == OpType::Update || events[i].op
                == OpType::Append),
    decreases events.len(),
{
    if events.len() > 0 {
        let rest = events.drop_last();
        writes_name_their_fields(rest, k);
        if written_names(rest).contains(k) {
            let i = choose|i: int|
                0 <= i < rest.len() && (#[trigger] rest[i]).payload.contains_key(k) && holds_fields(
                    rest[i].op,
                );
            assert(events[i].payload.contains_key(k));
        }
        if exists|i: int|
            0 <= i < events.len() && (#[trigger] events[i]).payload.contains_key(k) && holds_fields(
                events[i].op,
            ) {
            let i = choose|i: int|
                0 <= i < events.len() && (#[trigger] events[i]).payload.contains_key(k)
                    && holds_fields(events[i].op);
            if i < rest.len() {
                assert(rest[i].payload.contains_key(k));
            }
        }
        if holds_fields(events.last().op) && events.last().payload.contains_key(k) {
            assert(events[events.len() - 1].payload.contains_key(k));
        }
    }
}

/// A field name is known where some task has the field, where a task type
/// declares it, and where it is the status or the type.
pub proof fn known_names_are_used_or_declared(config: Config, s: StateV, k: Seq<char>)
    ensures
        known_names(config, s).contains(k) <==> {
            ||| k == "status"@
            ||| k == "task_type"@
            ||| exists|id: Seq<char>| #[trigger]
                s.contains_key(id) && s[id].custom_fields.contains_key(k)
            ||| exists|t: Seq<char>| #[trigger]
                config.task_types.types@.contains_key(t)
                    && config.task_types.types@[t].fields.contains_key(k)
        },
{
}

/// Appending at the creation of a task gives what appending afterwards gives: the
/// fields of a new task are those that it has once it was created with what is
/// set and the appends were written one after the other.
pub proof fn appending_early_or_late(
    s: StateV,
    id: Seq<char>,
    set: FieldsV,
    pairs: Seq<(Seq<char>, JsonV)>,
    at: Timestamp,
    done: Seq<char>,
)
    requires
        s.contains_key(id),
        s[id].custom_fields == set,
    ensures
        ({
            let after = engine::replay(s, field_drafts(id, Map::empty(), pairs, at), done);
            after.contains_key(id) && after[id].custom_fields == with_appended(set, pairs)
        }),
    decreases pairs.len(),
{
    let drafts = field_drafts(id, Map::empty(), pairs, at);
    if pairs.len() == 0 {
        assert(drafts =~= Seq::<EventV>::empty());
    } else {
        let rest = pairs.drop_last();
        appending_early_or_late(s, id, set, rest, at, done);
        assert(drafts.drop_last() =~= field_drafts(id, Map::empty(), rest, at));
    }
}

/// What is set is written as one update before the appends, and each append as an
/// event of its own, in order; without anything to set there is no update.
pub proof fn field_changes_are_events(
    id: Seq<char>,
    set: FieldsV,
    pairs: Seq<(Seq<char>, JsonV)>,
    at: Timestamp,
    i: int,
)
    requires
        0 <= i < pairs.len(),
    ensures
        ({
            let none = forall|k: Seq<char>| !#[trigger] set.contains_key(k);
            let drafts = field_drafts(id, set, pairs, at);
            let lead: int = if none {
                0
            } else {
                1
            };
            let e = drafts[lead + i];
            &&& drafts.len() == lead + pairs.len()
            &&& !none ==> drafts[0].op == OpType::Update && drafts[0].payload == set
                && drafts[0].task_id == id
            &&& e.op == OpType::Append
            &&& e.task_id == id
            &&& e.payload.contains_key(pairs[i].0) && e.payload[pairs[i].0] == pairs[i].1
            &&& forall|k: Seq<char>| k != pairs[i].0 ==> !#[trigger] e.payload.contains_key(k)
        }),
{
    if forall|k: Seq<char>| !#[trigger] set.contains_key(k) {
        assert(set =~= Map::empty());
    } else {
        let k = choose|k: Seq<char>| #[trigger] set.contains_key(k);
        assert(set != Map::<Seq<char>, JsonV>::empty());
    }
}

/// A field is stored under its own name, but for the status field, which is
/// stored as `status`, and the type field, which is stored as `task_type`; these
/// hold one value and cannot be appended to.
pub proof fn pairs_are_stored_by_name(
    pairs: Seq<(Seq<char>, JsonV)>,
    status: Seq<char>,
    kind: Seq<char>,
    name: Seq<char>,
)
    ensures
        name == status ==> stored_name(name, status, kind) == "status"@,
        name == kind && name != status ==> stored_name(name, status, kind) == "task_type"@,
        name != status && name != kind ==> stored_name(name, status, kind) == name,
        single_valued(pairs, status, kind) <==> exists|i: int|
            0 <= i < pairs.len() && ((#[trigger] pairs[i]).0 == status || pairs[i].0 == kind
                || pairs[i].0 == "status"@ || pairs[i].0 == "task_type"@),
{
    if single_valued(pairs, status, kind) {
        let i = choose|i: int|
            0 <= i < pairs.len() && (stored_name((#[trigger] pairs[i]).0, status, kind)
                == STATUS_KEY@ || stored_name(pairs[i].0, status, kind) == TASK_TYPE_KEY@);
        assert(pairs[i].0 == pairs[i].0);
    }
    if exists|i: int|
        0 <= i < pairs.len() && ((#[trigger] pairs[i]).0 == status || pairs[i].0 == kind
            || pairs[i].0 == "status"@ || pairs[i].0 == "task_type"@) {
        let i = choose|i: int|
            0 <= i < pairs.len() && ((#[trigger] pairs[i]).0 == status || pairs[i].0 == kind
                || pairs[i].0 == "status"@ || pairs[i].0 == "task_type"@);
        assert(stored_name(pairs[i].0, status, kind) == STATUS_KEY@ || stored_name(
            pairs[i].0,
            status,
            kind,
        ) == TASK_TYPE_KEY@);
    }
}

/// Of several words the last one that sets a field counts, and what others said
/// of other fields stays; the first word that cannot be read is what is refused.
pub proof fn later_words_count(
    words: Seq<Seq<char>>,
    reads: Seq<ContentV>,
    key: Seq<char>,
    val: Seq<char>,
    k: Seq<char>,
)
    requires
        reads.len() == words.len() + 1,
        key.len() > 0,
        !key.contains('='),
        key.last() != '+',
        key.last() != '-',
        !model::reserved_keys().contains(key),
        val.len() > 0 ==> val[0] != '@',
    ensures
        ({
            let before = ops_of(words, reads);
            let after = ops_of(words.push(key + seq!['='] + val), reads);
            &&& before is Err ==> after == before
            &&& before is Ok ==> after is Ok && {
                let (a, b) = (before->Ok_0, after->Ok_0);
                &&& b.set.contains_key(key)
                &&& json::json_parsed(val) matches Ok(v) ==> b.set[key] == v
                &&& json::json_parsed(val) is Err ==> b.set[key] == JsonV::Str(val)
                &&& k != key ==> (b.set.contains_key(k) <==> a.set.contains_key(k)) && (
                a.set.contains_key(k) ==> b.set[k] == a.set[k])
                &&& b.append == a.append
                &&& b.subtract == a.subtract
            }
        }),
        ops_of(Seq::empty(), reads) matches Ok(o) && o.set == Map::<Seq<char>, JsonV>::empty()
            && o.append.len() == 0 && o.subtract.len() == 0,
{
    let all = words.push(key + seq!['='] + val);
    assert(all.drop_last() =~= words);
    if let Ok(ops) = ops_of(words, reads) {
        field_words_read_back(ops, key, val, reads[words.len() as int]);
    }
}

} // verus!
