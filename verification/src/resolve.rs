//! Clearing a surfaced merge conflict and the events of no task.

use crate::engine::{self, Engine};
use crate::history;
use crate::json::{self, Json, JsonV};
use crate::model::{EventV, MutationEvent, OpType, StateV, TASK_ID_KEY};
use crate::store::Store;
use crate::strmap::{self, Data};
use std::collections::HashSet;
use vstd::prelude::*;

verus! {

broadcast use vstd::std_specs::hash::group_hash_axioms;

/// One field on which two branches disagreed, as the merge recorded it.
pub struct ConflictItem {
    pub task_id: String,
    pub field: Option<String>,
    pub ours: Json,
    pub theirs: Json,
    pub kept: String,
}

/// The model of a [`ConflictItem`].
pub struct ConflictV {
    pub task_id: Seq<char>,
    pub field: Option<Seq<char>>,
    pub ours: JsonV,
    pub theirs: JsonV,
    pub kept: Seq<char>,
}

/// An event that applies to no task.
pub struct OrphanEvent {
    pub seq: u64,
    pub op: OpType,
    pub task_id: String,
}

/// The model of an [`OrphanEvent`].
pub struct OrphanV {
    pub seq: u64,
    pub op: OpType,
    pub task_id: Seq<char>,
}

/// What there is to resolve: the recorded conflicts, if there is a record, and
/// the events of no task.
pub struct ResolvePlan {
    pub conflicts: Option<Vec<ConflictItem>>,
    pub orphans: Vec<OrphanEvent>,
}

impl DeepView for ConflictItem {
    type V = ConflictV;

    open spec fn deep_view(&self) -> ConflictV {
        ConflictV {
            task_id: self.task_id@,
            field: self.field.deep_view(),
            ours: self.ours@,
            theirs: self.theirs@,
            kept: self.kept@,
        }
    }
}

impl DeepView for OrphanEvent {
    type V = OrphanV;

    open spec fn deep_view(&self) -> OrphanV {
        OrphanV { seq: self.seq, op: self.op, task_id: self.task_id@ }
    }
}

/// The value under a key of an object.
pub open spec fn member(v: JsonV, key: Seq<char>) -> Option<JsonV> {
    match v {
        JsonV::Obj(entries) => if exists|i: int|
            0 <= i < entries.len() && (#[trigger] entries[i]).0 == key {
            let i = choose|i: int| 0 <= i < entries.len() && (#[trigger] entries[i]).0 == key;
            Some(entries[i].1)
        } else {
            None
        },
        _ => None,
    }
}

/// The text under a key of an object.
pub open spec fn text_member(v: JsonV, key: Seq<char>) -> Option<Seq<char>> {
    match member(v, key) {
        Some(JsonV::Str(s)) => Some(s),
        _ => None,
    }
}

/// The text under a key, or another one.
pub open spec fn text_or(v: JsonV, key: Seq<char>, other: Seq<char>) -> Seq<char> {
    match text_member(v, key) {
        Some(s) => s,
        None => other,
    }
}

/// The value under a key, or null.
pub open spec fn value_or_null(v: JsonV, key: Seq<char>) -> JsonV {
    match member(v, key) {
        Some(x) => x,
        None => JsonV::Null,
    }
}

/// One entry of the record.
pub open spec fn conflict_of(v: JsonV) -> ConflictV {
    ConflictV {
        task_id: text_or(v, TASK_ID_KEY@, "?"@),
        field: text_member(v, "field"@),
        ours: value_or_null(v, "ours"@),
        theirs: value_or_null(v, "theirs"@),
        kept: text_or(v, "kept"@, "ours"@),
    }
}

/// The entries of the record.
pub open spec fn conflicts_of(doc: JsonV) -> Seq<ConflictV> {
    match member(doc, "conflicts"@) {
        Some(JsonV::List(items)) => items.map_values(|v: JsonV| conflict_of(v)),
        _ => Seq::empty(),
    }
}

fn get_member<'a>(v: &'a Json, key: &str) -> (r: Option<&'a Json>)
    ensures
        r.deep_view() == member(v@, key@),
{
    match v {
        Json::Obj(m) => {
            let n = m.len();
            proof {
                json::lemma_object_view(*m);
                m.lemma_keys();
            }
            let ghost entries = json::object_view(*m);
            match m.index_of_key(key) {
                Some(i) => {
                    proof {
                        assert(entries[i as int].0 == key@);
                        let j = choose|j: int|
                            0 <= j < entries.len() && (#[trigger] entries[j]).0 == key@;
                        strmap::lemma_ascending_distinct(m.keys_view());
                        assert(m.keys_view()[j] == m.keys_view()[i as int]);
                        assert(i == j);
                    }
                    Some(&m.entries[i].1)
                },
                None => {
                    proof {
                        assert forall|i: int| 0 <= i < entries.len() implies (#[trigger] entries[i]).0
                            != key@ by {
                            assert(m.keys_view()[i] == entries[i].0);
                            assert(m.keys_view().to_set().contains(m.keys_view()[i]));
                        }
                    }
                    None
                },
            }
        },
        _ => None,
    }
}

fn get_text(v: &Json, key: &str) -> (r: Option<String>)
    ensures
        r.deep_view() == text_member(v@, key@),
{
    match get_member(v, key) {
        Some(Json::Str(s)) => Some(s.clone()),
        _ => None,
    }
}

fn get_text_or(v: &Json, key: &str, other: &str) -> (r: String)
    ensures
        r@ == text_or(v@, key@, other@),
{
    match get_text(v, key) {
        Some(s) => s,
        None => String::from_str(other),
    }
}

fn get_or_null(v: &Json, key: &str) -> (r: Json)
    ensures
        r@ == value_or_null(v@, key@),
{
    match get_member(v, key) {
        Some(x) => x.copy(),
        None => Json::Null,
    }
}

/// The conflicts that a merge recorded.
pub fn read_marker(doc: &Json) -> (r: Vec<ConflictItem>)
    ensures
        r.deep_view() == conflicts_of(doc@),
{
    let mut out: Vec<ConflictItem> = Vec::new();
    match get_member(doc, "conflicts") {
        Some(Json::List(items)) => {
            proof {
                json::lemma_list_view(*items);
            }
            let ghost all = items.deep_view();
            let mut i: usize = 0;
            while i < items.len()
                invariant
                    i <= items.len(),
                    all == items.deep_view(),
                    out.len() == i,
                    forall|j: int| 0 <= j < i ==> (#[trigger] out@[j]).deep_view() == conflict_of(all[j]),
                decreases items.len() - i,
            {
                let item = &items[i];
                assert(all[i as int] == item@);
                out.push(
                    ConflictItem {
                        task_id: get_text_or(item, TASK_ID_KEY, "?"),
                        field: get_text(item, "field"),
                        ours: get_or_null(item, "ours"),
                        theirs: get_or_null(item, "theirs"),
                        kept: get_text_or(item, "kept", "ours"),
                    },
                );
                i += 1;
            }
            assert(out.deep_view() =~= conflicts_of(doc@));
        },
        _ => {
            assert(out.deep_view() =~= Seq::empty());
        },
    }
    out
}

/// The events with one of the given numbers.
pub open spec fn events_numbered(events: Seq<EventV>, seqs: Set<u64>) -> Seq<OrphanV>
    decreases events.len(),
{
    if events.len() == 0 {
        Seq::empty()
    } else {
        let rest = events_numbered(events.drop_last(), seqs);
        let e = events.last();
        if seqs.contains(e.seq) {
            rest.push(OrphanV { seq: e.seq, op: e.op, task_id: e.task_id })
        } else {
            rest
        }
    }
}

/// The events with none of the given numbers.
pub open spec fn events_without(events: Seq<EventV>, seqs: Set<u64>) -> Seq<EventV>
    decreases events.len(),
{
    if events.len() == 0 {
        Seq::empty()
    } else {
        let rest = events_without(events.drop_last(), seqs);
        if seqs.contains(events.last().seq) {
            rest
        } else {
            rest.push(events.last())
        }
    }
}

fn set_of(seqs: &Vec<u64>) -> (r: HashSet<u64>)
    ensures
        r@ == seqs@.to_set(),
{
    let mut out: HashSet<u64> = HashSet::new();
    let mut i: usize = 0;
    assert(seqs@.take(0) =~= Seq::<u64>::empty());
    while i < seqs.len()
        invariant
            i <= seqs.len(),
            forall|s: u64| #[trigger] out@.contains(s) <==> seqs@.take(i as int).contains(s),
        decreases seqs.len() - i,
    {
        let ghost had = out@;
        out.insert(seqs[i]);
        proof {
            let longer = seqs@.take(i as int + 1);
            assert forall|s: u64| #[trigger] out@.contains(s) <==> longer.contains(s) by {
                strmap::lemma_contains_last(longer, s);
                assert(longer.drop_last() =~= seqs@.take(i as int));
                assert(had.contains(s) <==> seqs@.take(i as int).contains(s));
            }
        }
        i += 1;
    }
    assert(seqs@.take(seqs.len() as int) =~= seqs@);
    assert(out@ =~= seqs@.to_set());
    out
}

/// The conflicts that the text of a record holds, or why it cannot be read.
pub open spec fn marked_conflicts(t: Seq<char>) -> Result<Seq<ConflictV>, Seq<char>> {
    match json::json_parsed(t) {
        Ok(doc) => Ok(conflicts_of(doc)),
        Err(e) => Err(e),
    }
}

/// The conflicts that the text of a record holds.
pub fn marker_conflicts(t: &str) -> (r: Result<Vec<ConflictItem>, String>)
    ensures
        match r {
            Ok(items) => marked_conflicts(t@) == Ok::<Seq<ConflictV>, Seq<char>>(items.deep_view()),
            Err(e) => marked_conflicts(t@) == Err::<Seq<ConflictV>, Seq<char>>(e@),
        },
{
    match json::read_text(t) {
        Ok(doc) => Ok(read_marker(&doc)),
        Err(e) => Err(e),
    }
}

/// Looks at a store: the conflicts of the record, if there is one, and the
/// events of no task. A record that cannot be read is an error.
pub fn plan(store: &Store, marker: &Option<String>) -> (r: Result<ResolvePlan, String>)
    ensures
        match r {
            Ok(p) => {
                &&& match marker {
                    Some(t) => p.conflicts is Some && marked_conflicts(t@) == Ok::<
                        Seq<ConflictV>,
                        Seq<char>,
                    >(p.conflicts->0.deep_view()),
                    None => p.conflicts is None,
                }
                &&& p.orphans.deep_view() == events_numbered(
                    store.log(),
                    engine::orphans(store.base(), store.log(), store.done()).to_set(),
                )
            },
            Err(e) => marker matches Some(t) && marked_conflicts(t@) == Err::<
                Seq<ConflictV>,
                Seq<char>,
            >(e@),
        },
{
    let conflicts = match marker {
        Some(t) => match marker_conflicts(t.as_str()) {
            Ok(items) => Some(items),
            Err(e) => {
                return Err(e);
            },
        },
        None => None,
    };
    let (_, seqs) = Engine::materialize_report(
        &store.baseline,
        &store.mutations,
        store.config.workflow.done_status.as_str(),
    );
    let drop = set_of(&seqs);
    let ghost log = store.log();
    let mut orphans: Vec<OrphanEvent> = Vec::new();
    let mut i: usize = 0;
    assert(orphans.deep_view() =~= events_numbered(log.take(0), drop@));
    while i < store.mutations.len()
        invariant
            i <= store.mutations.len(),
            log == store.log(),
            orphans.deep_view() == events_numbered(log.take(i as int), drop@),
        decreases store.mutations.len() - i,
    {
        let e = &store.mutations[i];
        let ghost longer = log.take(i as int + 1);
        assert(longer.drop_last() =~= log.take(i as int));
        assert(longer.last() == e@);
        if drop.contains(&e.seq) {
            let ghost had = orphans.deep_view();
            orphans.push(OrphanEvent { seq: e.seq, op: e.op, task_id: e.task_id.clone() });
            assert(orphans.deep_view() =~= had.push(
                OrphanV { seq: e.seq, op: e.op, task_id: e.task_id@ },
            ));
        }
        i += 1;
    }
    assert(log.take(log.len() as int) =~= log);
    Ok(ResolvePlan { conflicts, orphans })
}

/// The numbers of the planned events.
pub open spec fn orphan_seqs(orphans: Seq<OrphanV>) -> Set<u64> {
    Set::new(|s: u64| exists|i: int| 0 <= i < orphans.len() && (#[trigger] orphans[i]).seq == s)
}

/// Drops the planned events of no task from the log, if that is wanted. Says
/// whether there is a record to clear, and how many events were dropped.
pub fn apply(store: &mut Store, plan: &ResolvePlan, drop_orphans: bool) -> (r: (bool, usize))
    ensures
        r.0 == plan.conflicts is Some,
        r.1 == if drop_orphans {
            plan.orphans.len() as int
        } else {
            0
        },
        final(store).log() == if drop_orphans {
            events_without(old(store).log(), orphan_seqs(plan.orphans.deep_view()))
        } else {
            old(store).log()
        },
        final(store).config == old(store).config,
        final(store).baseline == old(store).baseline,
{
    let cleared = plan.conflicts.is_some();
    let ghost log = store.log();
    let ghost all = plan.orphans.deep_view();
    if !drop_orphans {
        return (cleared, 0);
    }
    let mut drop: HashSet<u64> = HashSet::new();
    let mut k: usize = 0;
    while k < plan.orphans.len()
        invariant
            k <= plan.orphans.len(),
            all == plan.orphans.deep_view(),
            forall|s: u64| #[trigger]
                drop@.contains(s) <==> exists|i: int| 0 <= i < k && (#[trigger] all[i]).seq == s,
        decreases plan.orphans.len() - k,
    {
        let ghost had = drop@;
        assert(all[k as int] == plan.orphans@[k as int].deep_view());
        drop.insert(plan.orphans[k].seq);
        proof {
            assert forall|s: u64| #[trigger] drop@.contains(s) <==> exists|i: int|
                0 <= i < k + 1 && (#[trigger] all[i]).seq == s by {
                assert(had.contains(s) <==> exists|i: int|
                    0 <= i < k && (#[trigger] all[i]).seq == s);
                assert(all[k as int].seq == plan.orphans@[k as int].seq);
            }
        }
        k += 1;
    }
    assert(drop@ =~= orphan_seqs(all));
    let mut kept: Vec<MutationEvent> = Vec::new();
    let mut i: usize = 0;
    assert(kept.deep_view() =~= events_without(log.take(0), drop@));
    while i < store.mutations.len()
        invariant
            i <= store.mutations.len(),
            log == store.log(),
            kept.deep_view() == events_without(log.take(i as int), drop@),
        decreases store.mutations.len() - i,
    {
        let e = &store.mutations[i];
        let ghost longer = log.take(i as int + 1);
        assert(longer.drop_last() =~= log.take(i as int));
        assert(longer.last() == e@);
        if !drop.contains(&e.seq) {
            let ghost had = kept.deep_view();
            kept.push(e.copy());
            assert(kept.deep_view() =~= had.push(e@));
        }
        i += 1;
    }
    assert(log.take(log.len() as int) =~= log);
    store.mutations = kept;
    (cleared, plan.orphans.len())
}

proof fn lemma_numbered(events: Seq<EventV>, seqs: Set<u64>, s: u64)
    ensures
        orphan_seqs(events_numbered(events, seqs)).contains(s) <==> seqs.contains(s) && exists|i: int|
            0 <= i < events.len() && (#[trigger] events[i]).seq == s,
    decreases events.len(),
{
    let out = events_numbered(events, seqs);
    if events.len() > 0 {
        let fewer = events.drop_last();
        let rest = events_numbered(fewer, seqs);
        lemma_numbered(fewer, seqs, s);
        if exists|i: int| 0 <= i < rest.len() && (#[trigger] rest[i]).seq == s {
            let i = choose|i: int| 0 <= i < rest.len() && (#[trigger] rest[i]).seq == s;
            assert(out[i].seq == s);
        }
        if exists|i: int| 0 <= i < out.len() && (#[trigger] out[i]).seq == s {
            let i = choose|i: int| 0 <= i < out.len() && (#[trigger] out[i]).seq == s;
            if i < rest.len() {
                assert(rest[i].seq == s);
            } else {
                assert(events[events.len() - 1].seq == s);
            }
        }
        if exists|i: int| 0 <= i < fewer.len() && (#[trigger] fewer[i]).seq == s {
            let i = choose|i: int| 0 <= i < fewer.len() && (#[trigger] fewer[i]).seq == s;
            assert(events[i].seq == s);
        }
        if seqs.contains(s) && exists|i: int| 0 <= i < events.len() && (#[trigger] events[i]).seq == s {
            let i = choose|i: int| 0 <= i < events.len() && (#[trigger] events[i]).seq == s;
            if i < fewer.len() {
                assert(fewer[i].seq == s);
            } else {
                assert(out[rest.len() as int].seq == s);
            }
        }
    }
}

proof fn lemma_orphan_numbers(s: StateV, events: Seq<EventV>, done: Seq<char>, n: u64)
    ensures
        engine::orphans(s, events, done).contains(n) ==> exists|i: int|
            0 <= i < events.len() && (#[trigger] events[i]).seq == n,
    decreases events.len(),
{
    if events.len() > 0 && engine::orphans(s, events, done).contains(n) {
        let fewer = events.drop_last();
        let now = engine::orphans(s, events, done);
        let rest = engine::orphans(s, fewer, done);
        lemma_orphan_numbers(s, fewer, done, n);
        if rest.contains(n) {
            let i = choose|i: int| 0 <= i < fewer.len() && (#[trigger] fewer[i]).seq == n;
            assert(events[i].seq == n);
        } else {
            strmap::lemma_contains_last(now, n);
            assert(now.drop_last() =~= rest);
            assert(events[events.len() - 1].seq == n);
        }
    }
}

proof fn lemma_without_is_effective(
    s: StateV,
    all: Seq<EventV>,
    n: int,
    seqs: Set<u64>,
    done: Seq<char>,
)
    requires
        0 <= n <= all.len(),
        history::distinct_seqs(all),
        forall|q: u64| #[trigger]
            seqs.contains(q) <==> engine::orphans(s, all, done).contains(q),
    ensures
        events_without(all.take(n), seqs) == engine::effective(s, all.take(n), done),
    decreases n,
{
    if n > 0 {
        let now = all.take(n);
        assert(now.drop_last() =~= all.take(n - 1));
        lemma_without_is_effective(s, all, n - 1, seqs, done);
        let e = now.last();
        assert(e == all[n - 1]);
        let mid = engine::replay(s, all.take(n - 1), done);
        lemma_orphan_place(s, all, n - 1, done);
        assert(seqs.contains(e.seq) <==> engine::is_orphan(mid, e));
    }
}

/// With distinct numbers, an event is reported exactly if it is one of no task.
proof fn lemma_orphan_place(s: StateV, all: Seq<EventV>, i: int, done: Seq<char>)
    requires
        0 <= i < all.len(),
        history::distinct_seqs(all),
    ensures
        engine::orphans(s, all, done).contains(all[i].seq) <==> engine::is_orphan(
            engine::replay(s, all.take(i), done),
            all[i],
        ),
    decreases all.len(),
{
    let fewer = all.drop_last();
    let now = engine::orphans(s, all, done);
    let rest = engine::orphans(s, fewer, done);
    if now.len() > rest.len() {
        strmap::lemma_contains_last(now, all[i].seq);
        assert(now.drop_last() =~= rest);
    }
    if i < fewer.len() {
        assert forall|a: int, b: int|
            0 <= a < fewer.len() && 0 <= b < fewer.len() && (#[trigger] fewer[a]).seq == (
            #[trigger] fewer[b]).seq implies a == b by {
            assert(all[a].seq == all[b].seq);
        }
        lemma_orphan_place(s, fewer, i, done);
        assert(fewer.take(i) =~= all.take(i));
        assert(fewer[i] == all[i]);
        if all.last().seq == all[i].seq {
            assert(all[all.len() - 1].seq == all[i].seq);
        }
    } else {
        assert(all.take(i) =~= fewer);
        lemma_orphan_numbers(s, fewer, done, all[i].seq);
        if rest.contains(all[i].seq) {
            let j = choose|j: int| 0 <= j < fewer.len() && (#[trigger] fewer[j]).seq == all[i].seq;
            assert(all[j].seq == all[i].seq);
        }
    }
}

/// Dropping the events of no task changes no task.
pub proof fn dropping_orphans_keeps_state(s: StateV, events: Seq<EventV>, done: Seq<char>)
    requires
        history::distinct_seqs(events),
    ensures
        ({
            let planned = events_numbered(events, engine::orphans(s, events, done).to_set());
            let kept = events_without(events, orphan_seqs(planned));
            &&& engine::replay(s, kept, done) == engine::replay(s, events, done)
            &&& engine::orphans(s, kept, done).len() == 0
        }),
{
    let reported = engine::orphans(s, events, done);
    let planned = events_numbered(events, reported.to_set());
    let seqs = orphan_seqs(planned);
    assert forall|q: u64| #[trigger] seqs.contains(q) <==> reported.contains(q) by {
        lemma_numbered(events, reported.to_set(), q);
        lemma_orphan_numbers(s, events, done, q);
        assert(reported.to_set().contains(q) == reported.contains(q));
    }
    lemma_without_is_effective(s, events, events.len() as int, seqs, done);
    assert(events.take(events.len() as int) =~= events);
    engine::orphans_are_neutral(s, events, done);
}

proof fn lemma_kept(events: Seq<EventV>, seqs: Set<u64>, e: EventV)
    ensures
        events_without(events, seqs).contains(e) <==> events.contains(e) && !seqs.contains(e.seq),
    decreases events.len(),
{
    if events.len() > 0 {
        let rest = events.drop_last();
        lemma_kept(rest, seqs, e);
        strmap::lemma_contains_last(events, e);
        if !seqs.contains(events.last().seq) {
            let all = events_without(events, seqs);
            assert(all.drop_last() =~= events_without(rest, seqs));
            strmap::lemma_contains_last(all, e);
        }
    }
}

proof fn lemma_listed(events: Seq<EventV>, seqs: Set<u64>, o: OrphanV)
    ensures
        events_numbered(events, seqs).contains(o) <==> seqs.contains(o.seq) && exists|i: int|
            0 <= i < events.len() && (#[trigger] events[i]).seq == o.seq && events[i].op == o.op
                && events[i].task_id == o.task_id,
    decreases events.len(),
{
    if events.len() > 0 {
        let rest = events.drop_last();
        let last = events.last();
        lemma_listed(rest, seqs, o);
        let all = events_numbered(events, seqs);
        if seqs.contains(last.seq) {
            assert(all.drop_last() =~= events_numbered(rest, seqs));
            strmap::lemma_contains_last(all, o);
        }
        if exists|i: int|
            0 <= i < rest.len() && (#[trigger] rest[i]).seq == o.seq && rest[i].op == o.op
                && rest[i].task_id == o.task_id {
            let i = choose|i: int|
                0 <= i < rest.len() && (#[trigger] rest[i]).seq == o.seq && rest[i].op == o.op
                    && rest[i].task_id == o.task_id;
            assert(events[i].seq == o.seq);
        }
        if exists|i: int|
            0 <= i < events.len() && (#[trigger] events[i]).seq == o.seq && events[i].op == o.op
                && events[i].task_id == o.task_id {
            let i = choose|i: int|
                0 <= i < events.len() && (#[trigger] events[i]).seq == o.seq && events[i].op == o.op
                    && events[i].task_id == o.task_id;
            if i < rest.len() {
                assert(rest[i].seq == o.seq);
            }
        }
        if seqs.contains(last.seq) && o == (OrphanV {
            seq: last.seq,
            op: last.op,
            task_id: last.task_id,
        }) {
            assert(events[events.len() - 1].seq == o.seq);
        }
    }
}

/// A plan lists the orphaned events, each with its number, kind and task, and
/// dropping them takes the events with their numbers from the log and no others.
pub proof fn plans_list_what_is_dropped(
    store: Store,
    marker: Option<String>,
    p: ResolvePlan,
    e: EventV,
)
    requires
        call_ensures(plan, (&store, &marker), Ok::<ResolvePlan, String>(p)),
        store.log().contains(e),
    ensures
        ({
            let lost = engine::orphans(store.base(), store.log(), store.done());
            let kept = events_without(store.log(), orphan_seqs(p.orphans.deep_view()));
            &&& p.orphans.deep_view().contains(
                (OrphanV { seq: e.seq, op: e.op, task_id: e.task_id }),
            ) <==> lost.contains(e.seq)
            &&& kept.contains(e) <==> !lost.contains(e.seq)
            &&& p.conflicts is Some <==> marker is Some
        }),
{
    let log = store.log();
    let lost = engine::orphans(store.base(), log, store.done());
    let o = OrphanV { seq: e.seq, op: e.op, task_id: e.task_id };
    let named = p.orphans.deep_view();
    lemma_listed(log, lost.to_set(), o);
    let i = choose|i: int| 0 <= i < log.len() && log[i] == e;
    assert(log[i].seq == o.seq && log[i].op == o.op && log[i].task_id == o.task_id);
    assert(lost.to_set().contains(e.seq) <==> lost.contains(e.seq));
    lemma_kept(log, orphan_seqs(named), e);
    assert(orphan_seqs(named).contains(e.seq) <==> lost.contains(e.seq)) by {
        if lost.contains(e.seq) {
            let k = choose|k: int| 0 <= k < named.len() && named[k] == o;
            assert(named[k].seq == e.seq);
        }
        if orphan_seqs(named).contains(e.seq) {
            let k = choose|k: int| 0 <= k < named.len() && (#[trigger] named[k]).seq == e.seq;
            assert(named.contains(named[k]));
            lemma_listed(log, lost.to_set(), named[k]);
        }
    }
}

/// A conflict is read from its object: the members stand for the parts that they
/// are named after. One that is left out is null, an unknown task reads `?`, and
/// `ours` is what was kept where nothing says so.
pub proof fn conflicts_are_read(entries: Seq<(Seq<char>, JsonV)>, i: int)
    requires
        0 <= i < entries.len(),
        forall|a: int, b: int|
            0 <= a < b < entries.len() ==> (#[trigger] entries[a]).0 != (#[trigger] entries[b]).0,
    ensures
        ({
            let c = conflict_of(JsonV::Obj(entries));
            let (k, v) = entries[i];
            &&& k == "task_id"@ && v is Str ==> c.task_id == v->Str_0
            &&& k == "field"@ && v is Str ==> c.field == Some(v->Str_0)
            &&& k == "ours"@ ==> c.ours == v
            &&& k == "theirs"@ ==> c.theirs == v
            &&& k == "kept"@ && v is Str ==> c.kept == v->Str_0
        }),
        ({
            let c = conflict_of(JsonV::Obj(Seq::empty()));
            &&& c.task_id == "?"@
            &&& c.field is None
            &&& c.ours == JsonV::Null
            &&& c.theirs == JsonV::Null
            &&& c.kept == "ours"@
        }),
{
    let v = JsonV::Obj(entries);
    let k = entries[i].0;
    assert(member(v, k) == Some(entries[i].1)) by {
        let j = choose|j: int| 0 <= j < entries.len() && (#[trigger] entries[j]).0 == k;
        assert(entries[j].0 == k);
        if j < i {
            assert(entries[j].0 != entries[i].0);
        } else if i < j {
            assert(entries[i].0 != entries[j].0);
        }
    }
}

/// An object has the members that it was made of, with their values.
pub proof fn objects_have_their_members(m: Map<Seq<char>, JsonV>, k: Seq<char>)
    requires
        m.dom().finite(),
    ensures
        member(json::object(m), k) == if m.contains_key(k) {
            Some(m[k])
        } else {
            None
        },
{
    let keys = strmap::sorted_of(m.dom());
    strmap::sorted_of_finite(m.dom());
    let entries = json::object(m)->Obj_0;
    assert(keys.to_set().contains(k) <==> keys.contains(k));
    if m.contains_key(k) {
        let i = choose|i: int| 0 <= i < keys.len() && keys[i] == k;
        assert(entries[i].0 == k);
        let j = choose|j: int| 0 <= j < entries.len() && (#[trigger] entries[j]).0 == k;
        assert(entries[j] == (keys[j], m[keys[j]]));
    } else {
        assert forall|i: int| 0 <= i < entries.len() implies (#[trigger] entries[i]).0 != k by {
            assert(keys.contains(keys[i]));
        }
    }
}

/// A marker tells its conflicts one by one, in order; without a list of them it
/// tells none.
pub proof fn markers_list_conflicts(m: Map<Seq<char>, JsonV>, i: int)
    requires
        m.dom().finite(),
    ensures
        m.contains_key("conflicts"@) && m["conflicts"@] is List ==> {
            let items = m["conflicts"@]->List_0;
            &&& conflicts_of(json::object(m)).len() == items.len()
            &&& 0 <= i < items.len() ==> conflicts_of(json::object(m))[i] == conflict_of(items[i])
        },
        !m.contains_key("conflicts"@) ==> conflicts_of(json::object(m)).len() == 0,
{
    objects_have_their_members(m, "conflicts"@);
}

} // verus!
