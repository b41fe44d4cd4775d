//! What changed since a point in the log.

use crate::compact;
use crate::compensate;
use crate::engine;
use crate::graph;
use crate::list;
use crate::messages;
use crate::model::{EventV, MutationEvent, StateV, TaskState, TaskV, Timestamp};
use crate::reach;
use crate::read;
use crate::store::{self, Store};
use crate::strmap::{self, Data, StrSet};
use crate::text;
use crate::undo;
use vstd::prelude::*;

verus! {

/// A task that changed: as it was at the cursor, if it was there, and as it is
/// now, if it still is.
pub struct WatchUpdate {
    pub id: String,
    pub before: Option<TaskState>,
    pub after: Option<TaskState>,
}

/// The model of a [`WatchUpdate`].
pub struct UpdateV {
    pub id: Seq<char>,
    pub before: Option<TaskV>,
    pub after: Option<TaskV>,
}

impl DeepView for WatchUpdate {
    type V = UpdateV;

    open spec fn deep_view(&self) -> UpdateV {
        UpdateV {
            id: self.id@,
            before: self.before.deep_view(),
            after: self.after.deep_view(),
        }
    }
}

/// The events up to a number.
pub open spec fn events_upto(events: Seq<EventV>, since: u64) -> Seq<EventV>
    decreases events.len(),
{
    if events.len() == 0 {
        Seq::empty()
    } else {
        let rest = events_upto(events.drop_last(), since);
        if events.last().seq <= since {
            rest.push(events.last())
        } else {
            rest
        }
    }
}

/// The tasks that events above a number touch.
pub open spec fn touched(events: Seq<EventV>, since: u64) -> Set<Seq<char>> {
    Set::new(
        |id: Seq<char>|
            exists|i: int|
                0 <= i < events.len() && (#[trigger] events[i]).seq > since && events[i].task_id == id,
    )
}

/// The updates of the given tasks that pass a filter: a task that is there on
/// its state now, a task that is gone on its state then.
pub open spec fn updates_of(
    before: StateV,
    after: StateV,
    then: Set<Seq<char>>,
    now: Set<Seq<char>>,
    ids: Seq<Seq<char>>,
) -> Seq<UpdateV>
    decreases ids.len(),
{
    if ids.len() == 0 {
        Seq::empty()
    } else {
        let rest = updates_of(before, after, then, now, ids.drop_last());
        let id = ids.last();
        if (after.contains_key(id) && now.contains(id)) || (!after.contains_key(id)
            && then.contains(id)) {
            rest.push(UpdateV { id, before: compensate::task_at(before, id), after: compensate::task_at(after, id) })
        } else {
            rest
        }
    }
}

/// The message about a cursor whose events are compacted.
pub open spec fn too_old(since: u64, first: u64) -> Seq<char> {
    "cursor seq "@ + text::decimal(since as nat) + " predates the retained log (oldest is "@
        + text::decimal(first as nat)
        + "); those events were compacted - re-sync with `ta status --current`"@
}

/// Whether events above the cursor are missing from the log.
pub open spec fn predates(events: Seq<EventV>, since: u64) -> bool {
    events.len() > 0 && since + 1 < events[0].seq
}

impl Store {
    /// The tasks at a cursor, under their display names.
    pub open spec fn at(&self, since: u64) -> StateV {
        read::display_named(
            engine::replay(self.base(), events_upto(self.log(), since), self.done()),
            self.config.workflow,
        )
    }

    /// The tasks now, under their display names.
    pub open spec fn named_now(&self) -> StateV {
        read::display_named(self.state(), self.config.workflow)
    }
}

fn keep_upto(events: &Vec<MutationEvent>, since: u64) -> (r: Vec<MutationEvent>)
    ensures
        r.deep_view() == events_upto(events.deep_view(), since),
{
    let ghost all = events.deep_view();
    let mut out: Vec<MutationEvent> = Vec::new();
    let mut i: usize = 0;
    assert(out.deep_view() =~= events_upto(all.take(0), since));
    while i < events.len()
        invariant
            i <= events.len(),
            all == events.deep_view(),
            out.deep_view() == events_upto(all.take(i as int), since),
        decreases events.len() - i,
    {
        let ghost longer = all.take(i as int + 1);
        assert(longer.drop_last() =~= all.take(i as int));
        assert(longer.last() == events@[i as int]@);
        if events[i].seq <= since {
            let ghost had = out.deep_view();
            out.push(events[i].copy());
            assert(out.deep_view() =~= had.push(longer.last()));
        }
        i += 1;
    }
    assert(all.take(all.len() as int) =~= all);
    out
}

fn touched_ids(events: &Vec<MutationEvent>, since: u64) -> (r: StrSet)
    ensures
        r@ == touched(events.deep_view(), since),
{
    let ghost all = events.deep_view();
    let mut out = StrSet::new();
    let mut i: usize = 0;
    while i < events.len()
        invariant
            i <= events.len(),
            all == events.deep_view(),
            forall|id: Seq<char>| #[trigger]
                out@.contains(id) <==> exists|j: int|
                    0 <= j < i && (#[trigger] all[j]).seq > since && all[j].task_id == id,
        decreases events.len() - i,
    {
        let ghost had = out@;
        assert(all[i as int] == events@[i as int]@);
        if events[i].seq > since {
            out.insert(events[i].task_id.clone());
        }
        proof {
            assert forall|id: Seq<char>| #[trigger] out@.contains(id) <==> exists|j: int|
                0 <= j < i + 1 && (#[trigger] all[j]).seq > since && all[j].task_id == id by {
                assert(had.contains(id) <==> exists|j: int|
                    0 <= j < i && (#[trigger] all[j]).seq > since && all[j].task_id == id);
                if all[i as int].seq > since && all[i as int].task_id == id {
                    assert(all[i as int].seq > since);
                }
            }
        }
        i += 1;
    }
    assert(out@ =~= touched(all, since));
    out
}

/// What the criteria of a watch mean, and whether its filter can be applied to
/// the tasks then and now.
pub open spec fn filters_apply(store: Store, ready: bool, since: u64) -> bool {
    !ready || !(reach::cyclic(graph::dep_edges(store.named_now(), store.gates()))
        || reach::cyclic(graph::dep_edges(store.at(since), store.gates())))
}

/// The tasks that changed since a cursor and match a filter, by id.
///
/// A task that is there is tested as it is now, a task that is gone as it was
/// then. A cursor whose events are compacted is an error.
pub fn poll(
    store: &Store,
    criteria: &Vec<String>,
    open: bool,
    ready: bool,
    since: u64,
) -> (r: Result<
    Vec<WatchUpdate>,
    String,
>)
    ensures
        ({
            let log = store.log();
            let compiled = list::all_compiled(criteria.deep_view());
            if predates(log, since) {
                r matches Err(m) && m@ == too_old(since, log[0].seq)
            } else if since >= read::last_number(log) {
                r matches Ok(u) && u.len() == 0
            } else {
                match compiled {
                    Err(e) => r matches Err(m) && m@ == e,
                    Ok(cs) => match r {
                        Ok(u) => filters_apply(*store, ready, since) && u.deep_view() == updates_of(
                            store.at(since),
                            store.named_now(),
                            list::passing_ids(store.at(since), store.config, cs, open, ready),
                            list::passing_ids(store.named_now(), store.config, cs, open, ready),
                            strmap::sorted_of(touched(log, since)),
                        ),
                        Err(m) => !filters_apply(*store, ready, since) && m@
                            == graph::cycle_message(),
                    },
                }
            }
        }),
{
    let muts = &store.mutations;
    let ghost log = store.log();
    let config = &store.config;
    let n = muts.len();
    if n == 0 {
        return Ok(Vec::new());
    }
    assert(log[0] == muts@[0]@);
    assert(log.last() == muts@[n - 1]@);
    let first = muts[0].seq;
    if since < first && first - since > 1 {
        let m = text::cat3(
            "cursor seq ",
            text::decimal_text(since).as_str(),
            " predates the retained log (oldest is ",
        );
        return Err(
            text::cat3(
                m.as_str(),
                text::decimal_text(first).as_str(),
                "); those events were compacted - re-sync with `ta status --current`",
            ),
        );
    }
    if since >= muts[n - 1].seq {
        return Ok(Vec::new());
    }
    let upto = keep_upto(muts, since);
    let before = read::rename_to_display(
        &store::materialize(config, &store.baseline, &upto),
        config,
    );
    let after = read::rename_to_display(&store::materialize(config, &store.baseline, muts), config);
    proof {
        compact::replay_keeps_keys(store.baseline.deep_view(), upto.deep_view(), store.done());
        compact::replay_keeps_keys(store.baseline.deep_view(), log, store.done());
    }
    let ids = graph::members_of(&touched_ids(muts, since));
    let now = match list::matching_ids(config, &after, criteria, open, ready) {
        Ok(v) => v,
        Err(m) => {
            return Err(m);
        },
    };
    let then = match list::matching_ids(config, &before, criteria, open, ready) {
        Ok(v) => v,
        Err(m) => {
            return Err(m);
        },
    };
    let ghost all = ids.deep_view();
    let mut out: Vec<WatchUpdate> = Vec::new();
    let mut i: usize = 0;
    assert(all.take(0) =~= Seq::<Seq<char>>::empty());
    assert(out.deep_view() =~= Seq::<UpdateV>::empty());
    while i < ids.len()
        invariant
            i <= ids.len(),
            all == ids.deep_view(),
            out.deep_view() == updates_of(before@, after@, then@, now@, all.take(i as int)),
        decreases ids.len() - i,
    {
        let id = ids[i].as_str();
        let ghost longer = all.take(i as int + 1);
        assert(longer.drop_last() =~= all.take(i as int));
        assert(longer.last() == id@);
        let there = after.get(id);
        let hit = if there.is_some() {
            now.contains(id)
        } else {
            then.contains(id)
        };
        if hit {
            let ghost had = out.deep_view();
            let u = WatchUpdate {
                id: String::from_str(id),
                before: undo::copy_task(before.get(id)),
                after: undo::copy_task(there),
            };
            let ghost uv = u.deep_view();
            out.push(u);
            assert(out.deep_view() =~= had.push(uv));
        }
        i += 1;
    }
    assert(all.take(all.len() as int) =~= all);
    Ok(out)
}

/// A task that changed, with the lines of its state that went and came.
pub struct ChangedTask {
    pub id: String,
    pub removed: Vec<String>,
    pub added: Vec<String>,
}

/// The model of a [`ChangedTask`].
pub struct ChangedV {
    pub id: Seq<char>,
    pub removed: Seq<Seq<char>>,
    pub added: Seq<Seq<char>>,
}

impl DeepView for ChangedTask {
    type V = ChangedV;

    open spec fn deep_view(&self) -> ChangedV {
        ChangedV {
            id: self.id@,
            removed: self.removed.deep_view(),
            added: self.added.deep_view(),
        }
    }
}

impl Data for ChangedTask {
    fn copy(&self) -> (r: Self) {
        ChangedTask { id: self.id.clone(), removed: self.removed.copy(), added: self.added.copy() }
    }
}

/// The tasks with lines that went or came.
pub open spec fn really_changed(tasks: Seq<ChangedV>) -> Seq<ChangedV>
    decreases tasks.len(),
{
    if tasks.len() == 0 {
        Seq::empty()
    } else {
        let rest = really_changed(tasks.drop_last());
        if tasks.last().removed.len() == 0 && tasks.last().added.len() == 0 {
            rest
        } else {
            rest.push(tasks.last())
        }
    }
}

/// Leaves out the tasks whose events cancelled out.
pub fn collect(tasks: &Vec<ChangedTask>) -> (r: Vec<ChangedTask>)
    ensures
        r.deep_view() == really_changed(tasks.deep_view()),
{
    let ghost all = tasks.deep_view();
    let mut out: Vec<ChangedTask> = Vec::new();
    let mut i: usize = 0;
    assert(out.deep_view() =~= really_changed(all.take(0)));
    while i < tasks.len()
        invariant
            i <= tasks.len(),
            all == tasks.deep_view(),
            out.deep_view() == really_changed(all.take(i as int)),
        decreases tasks.len() - i,
    {
        let t = &tasks[i];
        let ghost longer = all.take(i as int + 1);
        assert(longer.drop_last() =~= all.take(i as int));
        assert(longer.last() == t.deep_view());
        assert(t.removed.deep_view().len() == t.removed.len());
        assert(t.added.deep_view().len() == t.added.len());
        if t.removed.len() > 0 || t.added.len() > 0 {
            let ghost had = out.deep_view();
            out.push(t.copy());
            assert(out.deep_view() =~= had.push(longer.last()));
        }
        i += 1;
    }
    assert(all.take(all.len() as int) =~= all);
    out
}

/// The changed lines of an update.
pub open spec fn change_of(u: UpdateV) -> ChangedV {
    let (removed, added) = messages::task_lines(u.before, u.after);
    ChangedV { id: u.id, removed, added }
}

/// The tasks of the updates whose lines changed.
pub fn changed_tasks(updates: &Vec<WatchUpdate>) -> (r: Vec<ChangedTask>)
    ensures
        r.deep_view() == really_changed(
            updates.deep_view().map_values(|u: UpdateV| change_of(u)),
        ),
{
    let ghost all = updates.deep_view();
    let mut out: Vec<ChangedTask> = Vec::new();
    let mut i: usize = 0;
    while i < updates.len()
        invariant
            i <= updates.len(),
            all == updates.deep_view(),
            out.len() == i,
            forall|j: int| 0 <= j < i ==> (#[trigger] out@[j]).deep_view() == change_of(all[j]),
        decreases updates.len() - i,
    {
        let u = &updates[i];
        assert(all[i as int] == u.deep_view());
        let (removed, added) = messages::task_diff(u.before.as_ref(), u.after.as_ref());
        out.push(ChangedTask { id: u.id.clone(), removed, added });
        i += 1;
    }
    assert(out.deep_view() =~= all.map_values(|u: UpdateV| change_of(u)));
    collect(&out)
}

/// Where the digits that start at place `i` end.
pub open spec fn digits_end(s: Seq<char>, i: nat) -> nat
    decreases s.len() - i,
{
    if i < s.len() && text::is_digit_char(s[i as int]) {
        digits_end(s, i + 1)
    } else {
        i
    }
}

/// Whether a character is a letter of the Latin alphabet.
pub open spec fn is_letter(c: char) -> bool {
    ('a' <= c <= 'z') || ('A' <= c <= 'Z')
}

/// Where the letters that start at place `i` end.
pub open spec fn letters_end(s: Seq<char>, i: nat) -> nat
    decreases s.len() - i,
{
    if i < s.len() && is_letter(s[i as int]) {
        letters_end(s, i + 1)
    } else {
        i
    }
}

/// Digits end at or after their start, within the text.
pub proof fn lemma_digits_end(s: Seq<char>, i: nat)
    requires
        i <= s.len(),
    ensures
        i <= digits_end(s, i) <= s.len(),
    decreases s.len() - i,
{
    if i < s.len() && text::is_digit_char(s[i as int]) {
        lemma_digits_end(s, i + 1);
    }
}

/// Letters end at or after their start, within the text.
pub proof fn lemma_letters_end(s: Seq<char>, i: nat)
    requires
        i <= s.len(),
    ensures
        i <= letters_end(s, i) <= s.len(),
    decreases s.len() - i,
{
    if i < s.len() && is_letter(s[i as int]) {
        lemma_letters_end(s, i + 1);
    }
}

/// The milliseconds in a unit.
pub open spec fn unit_millis(unit: Seq<char>) -> Option<nat> {
    if unit == "h"@ {
        Some(3_600_000)
    } else if unit == "m"@ {
        Some(60_000)
    } else if unit == "s"@ {
        Some(1_000)
    } else if unit == "ms"@ {
        Some(1)
    } else {
        None
    }
}

/// The milliseconds that the groups from place `i` on add to `sum`, or what is
/// wrong with them.
pub open spec fn millis_from(t: Seq<char>, i: nat, sum: nat) -> Result<nat, Seq<char>>
    decreases t.len() - i,
{
    let j = digits_end(t, i);
    let k = letters_end(t, j);
    if i >= t.len() {
        Ok(sum)
    } else if j <= i {
        Err("invalid duration `"@ + t + "`: expected `<number><unit>` (units h, m, s, ms)"@)
    } else {
        let num = text::digits_value(t.subrange(i as int, j as int));
        let unit = t.subrange(j as int, k as int);
        if num > u64::MAX {
            Err("invalid number in duration `"@ + t + "`"@)
        } else {
            match unit_millis(unit) {
                Some(scale) => if num * scale > u64::MAX || sum + num * scale > u64::MAX {
                    Err("duration `"@ + t + "` is too large"@)
                } else {
                    proof {
                        lemma_digits_end(t, i);
                        lemma_letters_end(t, j);
                    }
                    millis_from(t, k, sum + num * scale)
                },
                None => if unit.len() == 0 {
                    Err(
                        "invalid duration `"@ + t + "`: missing unit after "@ + text::decimal(num)
                            + " (use h, m, s, ms)"@,
                    )
                } else {
                    Err(
                        "invalid duration `"@ + t + "`: unknown unit `"@ + unit
                            + "` (use h, m, s, ms)"@,
                    )
                },
            }
        }
    }
}

/// The milliseconds of a duration, or what is wrong with it.
pub open spec fn duration_millis(s: Seq<char>) -> Result<nat, Seq<char>> {
    let t = text::trimmed(s);
    if t.len() == 0 {
        Err("empty duration (e.g. `1m55s`, `30s`, `500ms`)"@)
    } else {
        millis_from(t, 0, 0)
    }
}

fn skip_digits(v: &Vec<char>, i: usize) -> (r: usize)
    requires
        i <= v.len(),
    ensures
        r == digits_end(v@, i as nat),
        i <= r <= v.len(),
        forall|k: int| i <= k < r ==> text::is_digit_char(#[trigger] v@[k]),
{
    let mut j: usize = i;
    while j < v.len() && '0' <= v[j] && v[j] <= '9'
        invariant
            i <= j <= v.len(),
            digits_end(v@, j as nat) == digits_end(v@, i as nat),
            forall|k: int| i <= k < j ==> text::is_digit_char(#[trigger] v@[k]),
        decreases v.len() - j,
    {
        j += 1;
    }
    j
}

fn skip_letters(v: &Vec<char>, i: usize) -> (r: usize)
    requires
        i <= v.len(),
    ensures
        r == letters_end(v@, i as nat),
        i <= r <= v.len(),
{
    let mut j: usize = i;
    while j < v.len() && (('a' <= v[j] && v[j] <= 'z') || ('A' <= v[j] && v[j] <= 'Z'))
        invariant
            i <= j <= v.len(),
            letters_end(v@, j as nat) == letters_end(v@, i as nat),
        decreases v.len() - j,
    {
        j += 1;
    }
    j
}

fn unit_scale(unit: &str) -> (r: Option<u64>)
    ensures
        match r {
            Some(n) => unit_millis(unit@) == Some(n as nat) && 1 <= n <= 3_600_000,
            None => unit_millis(unit@) is None,
        },
{
    if text::same_text(unit, "h") {
        Some(3_600_000)
    } else if text::same_text(unit, "m") {
        Some(60_000)
    } else if text::same_text(unit, "s") {
        Some(1_000)
    } else if text::same_text(unit, "ms") {
        Some(1)
    } else {
        None
    }
}

/// Reads a duration such as `1m55s`, `30s` or `500ms` as milliseconds: numbers
/// with a unit each, added up.
pub fn parse_duration(s: &str) -> (r: Result<u64, String>)
    ensures
        match r {
            Ok(ms) => duration_millis(s@) == Ok::<nat, Seq<char>>(ms as nat),
            Err(m) => duration_millis(s@) == Err::<nat, Seq<char>>(m@),
        },
{
    let trimmed = text::trim(s);
    let t = trimmed.as_str();
    if text::is_blank(t) {
        return Err(String::from_str("empty duration (e.g. `1m55s`, `30s`, `500ms`)"));
    }
    let v = text::chars_of(t);
    let mut sum: u64 = 0;
    let mut i: usize = 0;
    while i < v.len()
        invariant
            i <= v.len(),
            v@ == t@,
            t@ == text::trimmed(s@),
            t@.len() > 0,
            duration_millis(s@) == millis_from(t@, i as nat, sum as nat),
        decreases v.len() - i,
    {
        let j = skip_digits(&v, i);
        if j == i {
            return Err(
                text::cat3(
                    "invalid duration `",
                    t,
                    "`: expected `<number><unit>` (units h, m, s, ms)",
                ),
            );
        }
        let num = match text::parse_digits(&v, i, j) {
            Some(n) => n,
            None => {
                return Err(text::cat3("invalid number in duration `", t, "`"));
            },
        };
        let k = skip_letters(&v, j);
        let unit = text::text_of(&v, j, k);
        let scale = match unit_scale(unit.as_str()) {
            Some(n) => n,
            None => {
                if text::is_blank(unit.as_str()) {
                    return Err(
                        text::cat5(
                            "invalid duration `",
                            t,
                            "`: missing unit after ",
                            text::decimal_text(num).as_str(),
                            " (use h, m, s, ms)",
                        ),
                    );
                }
                return Err(
                    text::cat5(
                        "invalid duration `",
                        t,
                        "`: unknown unit `",
                        unit.as_str(),
                        "` (use h, m, s, ms)",
                    ),
                );
            },
        };
        match num.checked_mul(scale) {
            Some(ms) => {
                match sum.checked_add(ms) {
                    Some(total) => {
                        sum = total;
                    },
                    None => {
                        return Err(text::cat3("duration `", t, "` is too large"));
                    },
                }
            },
            None => {
                return Err(text::cat3("duration `", t, "` is too large"));
            },
        }
        i = k;
    }
    Ok(sum)
}

proof fn lemma_millis_grow(t: Seq<char>, i: nat, sum: nat)
    ensures
        millis_from(t, i, sum) matches Ok(total) ==> sum <= total,
    decreases t.len() - i,
{
    let j = digits_end(t, i);
    let k = letters_end(t, j);
    if i < t.len() && j > i {
        lemma_digits_end(t, i);
        lemma_letters_end(t, j);
        let num = text::digits_value(t.subrange(i as int, j as int));
        if let Some(scale) = unit_millis(t.subrange(j as int, k as int)) {
            assert(num * scale >= 0) by (nonlinear_arith);
            lemma_millis_grow(t, k, sum + num * scale);
        }
    }
}

proof fn lemma_ends_before(a: Seq<char>, b: Seq<char>, i: nat)
    requires
        i <= a.len(),
    ensures
        digits_end(a, i) < a.len() ==> digits_end(a + b, i) == digits_end(a, i),
        letters_end(a, i) < a.len() || (b.len() > 0 && text::is_digit_char(b[0]))
            ==> letters_end(a + b, i) == letters_end(a, i),
    decreases a.len() - i,
{
    lemma_digits_end(a, i);
    lemma_letters_end(a, i);
    if i < a.len() {
        lemma_ends_before(a, b, i + 1);
    }
}

proof fn lemma_ends_after(a: Seq<char>, b: Seq<char>, i: nat)
    ensures
        digits_end(a + b, a.len() + i) == a.len() + digits_end(b, i),
        letters_end(a + b, a.len() + i) == a.len() + letters_end(b, i),
    decreases b.len() - i,
{
    if i < b.len() {
        lemma_ends_after(a, b, i + 1);
    }
}

proof fn lemma_no_unit()
    ensures
        unit_millis(Seq::empty()) is None,
{
    reveal_strlit("h");
    reveal_strlit("m");
    reveal_strlit("s");
    reveal_strlit("ms");
    assert("h"@.len() == 1 && "m"@.len() == 1 && "s"@.len() == 1 && "ms"@.len() == 2);
}

/// The groups of the first text count the same where another follows.
proof fn lemma_first_groups(a: Seq<char>, b: Seq<char>, i: nat, sum: nat)
    requires
        i <= a.len(),
        b.len() > 0,
        text::is_digit_char(b[0]),
        millis_from(a, i, sum) is Ok,
    ensures
        millis_from(a + b, i, sum) == millis_from(a + b, a.len(), millis_from(a, i, sum)->Ok_0),
    decreases a.len() - i,
{
    let t = a + b;
    if i < a.len() {
        let j = digits_end(a, i);
        let k = letters_end(a, j);
        lemma_digits_end(a, i);
        lemma_letters_end(a, j);
        let num = text::digits_value(a.subrange(i as int, j as int));
        let unit = a.subrange(j as int, k as int);
        lemma_no_unit();
        if j == k {
            assert(unit =~= Seq::empty());
        }
        lemma_ends_before(a, b, i);
        lemma_ends_before(a, b, j);
        assert(t.subrange(i as int, j as int) =~= a.subrange(i as int, j as int));
        assert(t.subrange(j as int, k as int) =~= unit);
        lemma_first_groups(a, b, k, sum + num * unit_millis(unit)->0);
    }
}

/// The groups of the second text count the same where another is before.
proof fn lemma_second_groups(a: Seq<char>, b: Seq<char>, i: nat, base: nat, sum: nat)
    requires
        i <= b.len(),
        millis_from(b, i, sum) matches Ok(total) && base + total <= u64::MAX,
    ensures
        millis_from(a + b, a.len() + i, base + sum) == Ok::<nat, Seq<char>>(
            base + millis_from(b, i, sum)->Ok_0,
        ),
    decreases b.len() - i,
{
    let t = a + b;
    if i < b.len() {
        let j = digits_end(b, i);
        let k = letters_end(b, j);
        lemma_digits_end(b, i);
        lemma_letters_end(b, j);
        lemma_ends_after(a, b, i);
        lemma_ends_after(a, b, j);
        let n = a.len();
        let num = text::digits_value(b.subrange(i as int, j as int));
        let unit = b.subrange(j as int, k as int);
        assert(t.subrange((n + i) as int, (n + j) as int) =~= b.subrange(i as int, j as int));
        assert(t.subrange((n + j) as int, (n + k) as int) =~= unit);
        let more = sum + num * unit_millis(unit)->0;
        lemma_millis_grow(b, k, more);
        lemma_second_groups(a, b, k, base, more);
    }
}

/// Two durations written one after the other, without blanks, are their sum, in
/// either order.
pub proof fn durations_add_up(a: Seq<char>, b: Seq<char>)
    requires
        forall|i: int| 0 <= i < a.len() ==> !text::space(#[trigger] a[i]),
        forall|i: int| 0 <= i < b.len() ==> !text::space(#[trigger] b[i]),
        duration_millis(a) matches Ok(x) && duration_millis(b) matches Ok(y) && x + y <= u64::MAX,
    ensures
        duration_millis(a + b) == Ok::<nat, Seq<char>>(
            duration_millis(a)->Ok_0 + duration_millis(b)->Ok_0,
        ),
        duration_millis(b + a) == duration_millis(a + b),
{
    lemma_one_after_the_other(a, b);
    lemma_one_after_the_other(b, a);
}

proof fn lemma_one_after_the_other(a: Seq<char>, b: Seq<char>)
    requires
        forall|i: int| 0 <= i < a.len() ==> !text::space(#[trigger] a[i]),
        forall|i: int| 0 <= i < b.len() ==> !text::space(#[trigger] b[i]),
        duration_millis(a) matches Ok(x) && duration_millis(b) matches Ok(y) && x + y <= u64::MAX,
    ensures
        duration_millis(a + b) == Ok::<nat, Seq<char>>(
            duration_millis(a)->Ok_0 + duration_millis(b)->Ok_0,
        ),
{
    let t = a + b;
    assert(text::trimmed(a) == a);
    assert(text::trimmed(b) == b);
    assert(a.len() > 0 && b.len() > 0);
    assert(t[0] == a[0] && t.last() == b[b.len() - 1]);
    assert(text::trimmed(t) == t);
    assert(text::is_digit_char(b[0]));
    lemma_first_groups(a, b, 0, 0);
    lemma_second_groups(a, b, 0, duration_millis(a)->Ok_0, 0);
}

/// How long to sleep between two looks at the log, in milliseconds.
pub const POLL_INTERVAL: u64 = 1000;

/// What the log's file looks like from outside: its length and the time it
/// was last written.
#[derive(Clone, Copy, Debug, PartialEq, Eq, Structural)]
pub struct Stamp {
    pub len: u64,
    pub written: Timestamp,
}

/// Whether the log has to be read: it looks other than at the last read, or
/// cannot be looked at.
pub fn must_read(now: Option<Stamp>, last: Option<Stamp>) -> (r: bool)
    ensures
        r == (now is None || now != last),
{
    match now {
        None => true,
        Some(n) => match last {
            None => true,
            Some(l) => n.len != l.len || n.written.secs != l.written.secs || n.written.nanos
                != l.written.nanos,
        },
    }
}

/// Where a watch is: looking for a change, or letting a burst of changes pass.
#[derive(Clone, Copy, Debug, PartialEq, Eq, Structural)]
pub enum WatchStage {
    Looking,
    Holding,
}

/// What a watch does next.
#[derive(Clone, Copy, Debug, PartialEq, Eq, Structural)]
pub enum WatchStep {
    /// Let so many milliseconds pass, and look at the tasks again in the stage
    /// [`WatchStage::Holding`].
    HoldOut(u64),
    /// Print the changes and end.
    Emit,
    /// Let so many milliseconds pass, and look at the log again in the stage
    /// [`WatchStage::Looking`].
    Sleep(u64),
    /// End without a change.
    GiveUp,
}

/// The smaller of two times.
pub open spec fn sooner(a: u64, b: u64) -> u64 {
    if a < b {
        a
    } else {
        b
    }
}

/// What a watch does when it has looked: `found` says whether something that
/// matches has changed, and `left` how many milliseconds the watch still has.
pub open spec fn watch_next(stage: WatchStage, found: bool, left: u64, holdout: u64) -> WatchStep {
    if found && stage == WatchStage::Looking {
        WatchStep::HoldOut(sooner(holdout, left))
    } else if found {
        WatchStep::Emit
    } else if left == 0 {
        WatchStep::GiveUp
    } else {
        WatchStep::Sleep(sooner(POLL_INTERVAL, left))
    }
}

/// What a watch does when it has looked.
pub fn watch_step(stage: WatchStage, found: bool, left: u64, holdout: u64) -> (r: WatchStep)
    ensures
        r == watch_next(stage, found, left, holdout),
{
    if found {
        match stage {
            WatchStage::Looking => WatchStep::HoldOut(
                if holdout < left {
                    holdout
                } else {
                    left
                },
            ),
            WatchStage::Holding => WatchStep::Emit,
        }
    } else if left == 0 {
        WatchStep::GiveUp
    } else {
        WatchStep::Sleep(
            if POLL_INTERVAL < left {
                POLL_INTERVAL
            } else {
                left
            },
        )
    }
}

/// A watch never waits past its time, gives up only when its time is over, and
/// prints only what it found.
pub proof fn watch_keeps_its_time(stage: WatchStage, found: bool, left: u64, holdout: u64)
    ensures
        match watch_next(stage, found, left, holdout) {
            WatchStep::HoldOut(ms) => found && ms <= left,
            WatchStep::Emit => found,
            WatchStep::Sleep(ms) => !found && 0 < ms <= left,
            WatchStep::GiveUp => !found && left == 0,
        },
{
}

proof fn lemma_updates(
    before: StateV,
    after: StateV,
    was: Set<Seq<char>>,
    now: Set<Seq<char>>,
    ids: Seq<Seq<char>>,
    id: Seq<char>,
)
    requires
        ids.no_duplicates(),
    ensures
        ({
            let u = updates_of(before, after, was, now, ids);
            &&& reported(u, id) <==> ids.contains(id) && if after.contains_key(id) {
                now.contains(id)
            } else {
                was.contains(id)
            }
            &&& forall|i: int|
                0 <= i < u.len() ==> {
                    &&& ids.contains((#[trigger] u[i]).id)
                    &&& u[i].before == if before.contains_key(u[i].id) {
                        Some(before[u[i].id])
                    } else {
                        None
                    }
                    &&& u[i].after == if after.contains_key(u[i].id) {
                        Some(after[u[i].id])
                    } else {
                        None
                    }
                }
        }),
    decreases ids.len(),
{
    if ids.len() > 0 {
        let rest = ids.drop_last();
        let last = ids.last();
        lemma_updates(before, after, was, now, rest, id);
        strmap::lemma_contains_last(ids, id);
        let few = updates_of(before, after, was, now, rest);
        let u = updates_of(before, after, was, now, ids);
        assert forall|i: int| 0 <= i < few.len() implies ids.contains((#[trigger] few[i]).id) by {
            strmap::lemma_contains_last(ids, few[i].id);
        }
        assert(ids.contains(last)) by {
            assert(ids[ids.len() - 1] == last);
        }
        if reported(few, id) {
            let i = choose|i: int| 0 <= i < few.len() && (#[trigger] few[i]).id == id;
            assert(u[i].id == id);
        }
        if u.len() > few.len() {
            assert(u[few.len() as int].id == last);
        }
        if reported(u, id) {
            let i = choose|i: int| 0 <= i < u.len() && (#[trigger] u[i]).id == id;
            if i < few.len() {
                assert(few[i].id == id);
            }
        }
    }
}

/// Whether one of the updates is about a task.
pub open spec fn reported(u: Seq<UpdateV>, id: Seq<char>) -> bool {
    exists|i: int| 0 <= i < u.len() && (#[trigger] u[i]).id == id
}

proof fn lemma_touched_finite(events: Seq<EventV>, since: u64)
    ensures
        touched(events, since).finite(),
    decreases events.len(),
{
    if events.len() == 0 {
        assert(touched(events, since) =~= Set::empty());
    } else {
        let rest = events.drop_last();
        lemma_touched_finite(rest, since);
        let more = touched(rest, since).insert(events.last().task_id);
        assert(touched(events, since).subset_of(more)) by {
            assert forall|id: Seq<char>| touched(events, since).contains(id) implies more.contains(
                id,
            ) by {
                let i = choose|i: int|
                    0 <= i < events.len() && (#[trigger] events[i]).seq > since
                        && events[i].task_id == id;
                if i < rest.len() {
                    assert(rest[i].seq > since && rest[i].task_id == id);
                }
            }
        }
        vstd::set_lib::lemma_set_subset_finite(more, touched(events, since));
    }
}

/// A poll reports a task exactly where an event above the cursor is about it and
/// the filter lets it through: a task that is there by what it is now, a task
/// that is gone by what it was at the cursor. Each update shows the task as it
/// was at the cursor and as it is now.
pub proof fn polls_report_matching_changes(
    store: Store,
    criteria: Vec<String>,
    open: bool,
    ready: bool,
    since: u64,
    u: Vec<WatchUpdate>,
    id: Seq<char>,
)
    requires
        call_ensures(
            poll,
            (&store, &criteria, open, ready, since),
            Ok::<Vec<WatchUpdate>, String>(u),
        ),
        store.log().len() > 0,
        since < store.log().last().seq,
        list::all_compiled(criteria.deep_view()) is Ok,
    ensures
        ({
            let cs = list::all_compiled(criteria.deep_view())->Ok_0;
            let now = read::display_named(store.state(), store.config.workflow);
            let was = read::display_named(
                engine::replay(store.base(), events_upto(store.log(), since), store.done()),
                store.config.workflow,
            );
            let s = if now.contains_key(id) {
                now
            } else {
                was
            };
            let changed = exists|i: int|
                0 <= i < store.log().len() && (#[trigger] store.log()[i]).seq > since
                    && store.log()[i].task_id == id;
            &&& reported(u.deep_view(), id) <==> changed && s.contains_key(id) && list::passes(
                s,
                store.config.relationships.types@,
                store.config.workflow.status_field@,
                store.config.workflow.done_status@,
                s[id],
                cs,
                open,
                ready,
            )
            &&& forall|i: int|
                0 <= i < u.deep_view().len() && (#[trigger] u.deep_view()[i]).id == id ==> {
                    &&& u.deep_view()[i].before == if was.contains_key(id) {
                        Some(was[id])
                    } else {
                        None
                    }
                    &&& u.deep_view()[i].after == if now.contains_key(id) {
                        Some(now[id])
                    } else {
                        None
                    }
                }
        }),
{
    let log = store.log();
    let cs = list::all_compiled(criteria.deep_view())->Ok_0;
    let ids = strmap::sorted_of(touched(log, since));
    lemma_touched_finite(log, since);
    strmap::sorted_of_finite(touched(log, since));
    strmap::lemma_ascending_distinct(ids);
    assert(ids.contains(id) <==> ids.to_set().contains(id));
    lemma_updates(
        store.at(since),
        store.named_now(),
        list::passing_ids(store.at(since), store.config, cs, open, ready),
        list::passing_ids(store.named_now(), store.config, cs, open, ready),
        ids,
        id,
    );
}

/// The events up to a cursor are those with numbers that are not above it: in a
/// log whose numbers rise, what comes before the first event above it.
pub proof fn cursors_split_the_log(events: Seq<EventV>, since: u64, n: int)
    requires
        0 <= n <= events.len(),
        forall|i: int| 0 <= i < n ==> (#[trigger] events[i]).seq <= since,
        forall|i: int| n <= i < events.len() ==> (#[trigger] events[i]).seq > since,
    ensures
        events_upto(events, since) == events.take(n),
    decreases events.len(),
{
    if events.len() > 0 {
        let rest = events.drop_last();
        if n < events.len() {
            cursors_split_the_log(rest, since, n);
            assert(rest.take(n) =~= events.take(n));
        } else {
            cursors_split_the_log(rest, since, n - 1);
            assert(rest.take(n - 1) =~= rest);
            assert(events.take(n) =~= rest.push(events.last()));
        }
    }
}

/// The changes that are shown are those of tasks of which a line went or came.
pub proof fn changes_without_lines_are_left_out(tasks: Seq<ChangedV>, c: ChangedV)
    ensures
        really_changed(tasks).contains(c) <==> tasks.contains(c) && (c.removed.len() > 0
            || c.added.len() > 0),
    decreases tasks.len(),
{
    if tasks.len() > 0 {
        let rest = tasks.drop_last();
        changes_without_lines_are_left_out(rest, c);
        strmap::lemma_contains_last(tasks, c);
        let all = really_changed(tasks);
        if tasks.last().removed.len() > 0 || tasks.last().added.len() > 0 {
            assert(all.drop_last() =~= really_changed(rest));
            strmap::lemma_contains_last(all, c);
        }
    }
}

proof fn lemma_number_ends(n: nat, unit: Seq<char>, i: nat)
    requires
        i <= text::decimal(n).len(),
        unit.len() > 0,
        forall|k: int| 0 <= k < unit.len() ==> is_letter(#[trigger] unit[k]),
    ensures
        digits_end(text::decimal(n) + unit, i) == text::decimal(n).len(),
    decreases text::decimal(n).len() - i,
{
    let t = text::decimal(n) + unit;
    text::numbers_read_back(n);
    if i < text::decimal(n).len() {
        assert(t[i as int] == text::decimal(n)[i as int]);
        lemma_number_ends(n, unit, i + 1);
    } else {
        assert(t[i as int] == unit[0]);
        assert(is_letter(unit[0]));
    }
}

proof fn lemma_unit_ends(t: Seq<char>, i: nat)
    requires
        i <= t.len(),
        forall|k: int| i <= k < t.len() ==> is_letter(#[trigger] t[k]),
    ensures
        letters_end(t, i) == t.len(),
    decreases t.len() - i,
{
    if i < t.len() {
        lemma_unit_ends(t, i + 1);
    }
}

proof fn lemma_one_unit(n: nat, unit: Seq<char>, scale: nat)
    requires
        unit.len() > 0,
        forall|k: int| 0 <= k < unit.len() ==> is_letter(#[trigger] unit[k]),
        unit_millis(unit) == Some(scale),
        scale >= 1,
        n * scale <= u64::MAX,
    ensures
        duration_millis(text::decimal(n) + unit) == Ok::<nat, Seq<char>>(n * scale),
{
    let d = text::decimal(n);
    let t = d + unit;
    text::numbers_read_back(n);
    assert(n <= n * scale) by (nonlinear_arith)
        requires
            scale >= 1,
    ;
    assert forall|i: int| 0 <= i < t.len() implies !text::space(#[trigger] t[i]) by {
        if i < d.len() {
            assert(t[i] == d[i]);
        } else {
            assert(t[i] == unit[i - d.len()]);
        }
    }
    assert(text::trimmed_start(t) == t);
    assert(text::trimmed_end(t) == t);
    lemma_number_ends(n, unit, 0);
    assert forall|k: int| d.len() <= k < t.len() implies is_letter(#[trigger] t[k]) by {
        assert(t[k] == unit[k - d.len()]);
    }
    lemma_unit_ends(t, d.len());
    assert(t.subrange(0, d.len() as int) =~= d);
    assert(t.subrange(d.len() as int, t.len() as int) =~= unit);
    assert(millis_from(t, t.len(), n * scale) == Ok::<nat, Seq<char>>(n * scale));
}

/// A duration of one number counts its unit: an hour is 60 minutes, a minute 60
/// seconds, a second 1000 milliseconds.
pub proof fn durations_count_units(n: nat)
    requires
        n * 3_600_000 <= u64::MAX,
    ensures
        duration_millis(text::decimal(n) + "ms"@) == Ok::<nat, Seq<char>>(n),
        duration_millis(text::decimal(n) + "s"@) == Ok::<nat, Seq<char>>(n * 1_000),
        duration_millis(text::decimal(n) + "m"@) == Ok::<nat, Seq<char>>(n * 60 * 1_000),
        duration_millis(text::decimal(n) + "h"@) == Ok::<nat, Seq<char>>(n * 60 * 60 * 1_000),
        duration_millis(Seq::empty()) is Err,
{
    reveal_strlit("h");
    reveal_strlit("m");
    reveal_strlit("s");
    reveal_strlit("ms");
    assert("h"@[0] == 'h' && "m"@[0] == 'm' && "s"@[0] == 's');
    assert("ms"@.len() == 2 && "h"@.len() == 1 && "m"@.len() == 1 && "s"@.len() == 1);
    lemma_one_unit(n, "ms"@, 1);
    lemma_one_unit(n, "s"@, 1_000);
    lemma_one_unit(n, "m"@, 60_000);
    lemma_one_unit(n, "h"@, 3_600_000);
}

/// A poll fails where the events after the cursor were compacted away, and finds
/// nothing where there are none; a filter that cannot be read fails.
pub proof fn polls_need_their_events(
    store: Store,
    criteria: Vec<String>,
    open: bool,
    ready: bool,
    since: u64,
    r: Result<Vec<WatchUpdate>, String>,
)
    requires
        call_ensures(poll, (&store, &criteria, open, ready, since), r),
    ensures
        store.log().len() > 0 && store.log()[0].seq > since + 1 ==> r is Err,
        store.log().len() == 0 ==> r is Ok && r->Ok_0.len() == 0,
        store.log().len() > 0 && store.log()[0].seq <= since + 1 && store.log().last().seq <= since
            ==> r is Ok && r->Ok_0.len() == 0,
        store.log().len() > 0 && store.log()[0].seq <= since + 1 && store.log().last().seq > since
            && list::all_compiled(criteria.deep_view()) is Err ==> r is Err,
        store.log().len() > 0 && store.log()[0].seq <= since + 1 && store.log().last().seq > since
            && list::all_compiled(criteria.deep_view()) is Ok && !ready ==> r is Ok,
{
}

/// The changes that are shown of updates: of each task that reads otherwise than
/// at the cursor, how it read and how it reads.
pub proof fn changes_are_shown(updates: Vec<WatchUpdate>, r: Vec<ChangedTask>, c: ChangedV)
    requires
        call_ensures(changed_tasks, (&updates,), r),
    ensures
        r.deep_view().contains(c) <==> exists|i: int|
            {
                let u = #[trigger] updates.deep_view()[i];
                &&& 0 <= i < updates.deep_view().len()
                &&& c.id == u.id
                &&& messages::description(u.before) != messages::description(u.after)
                &&& c.removed == seq![messages::description(u.before)]
                &&& c.added == seq![messages::description(u.after)]
            },
{
    let all = updates.deep_view();
    let tasks = all.map_values(|u: UpdateV| change_of(u));
    changes_without_lines_are_left_out(tasks, c);
    if r.deep_view().contains(c) {
        let i = choose|i: int| 0 <= i < tasks.len() && tasks[i] == c;
        assert(tasks[i] == change_of(all[i]));
        assert(c.id == updates.deep_view()[i].id);
    }
    if exists|i: int|
        {
            let u = #[trigger] updates.deep_view()[i];
            &&& 0 <= i < updates.deep_view().len()
            &&& c.id == u.id
            &&& messages::description(u.before) != messages::description(u.after)
            &&& c.removed == seq![messages::description(u.before)]
            &&& c.added == seq![messages::description(u.after)]
        } {
        let i = choose|i: int|
            {
                let u = #[trigger] updates.deep_view()[i];
                &&& 0 <= i < updates.deep_view().len()
                &&& c.id == u.id
                &&& messages::description(u.before) != messages::description(u.after)
                &&& c.removed == seq![messages::description(u.before)]
                &&& c.added == seq![messages::description(u.after)]
            };
        assert(tasks[i] == change_of(all[i]));
        assert(tasks[i] == c);
        assert(tasks.contains(c));
    }
}

/// A poll from before the log names the cursor and the oldest event that is left.
pub proof fn old_cursors_are_told(
    store: Store,
    criteria: Vec<String>,
    open: bool,
    ready: bool,
    since: u64,
    m: String,
)
    requires
        call_ensures(
            poll,
            (&store, &criteria, open, ready, since),
            Err::<Vec<WatchUpdate>, String>(m),
        ),
        store.log().len() > 0,
        store.log()[0].seq > since + 1,
    ensures
        m@ == "cursor seq "@ + text::decimal(since as nat)
            + " predates the retained log (oldest is "@ + text::decimal(store.log()[0].seq as nat)
            + "); those events were compacted - re-sync with `ta status --current`"@,
{
}

} // verus!
