//! The commands that read a store: what each of them prints.

use crate::config::{DisplayConfig, Layout};
use crate::dep;
use crate::display::{self, DisplayArgs, OutputArgs, OutputFormat};
use crate::edges;
use crate::forest;
use crate::graph;
use crate::guide;
use crate::json::{self, Json, JsonV, JsonNumber};
use crate::list::{self, CriterionV, ListOutcome, ListQuery};
use crate::model::{
    EventV, MutationEvent, OpType, StateV, TaskState, TaskV, Timestamp, DEPS_KEY, ID_KEY,
};
use crate::order;
use crate::prime;
use crate::reach;
use crate::read::{self, SchemaReading};
use crate::report;
use crate::settings;
use crate::show;
use crate::status::{self, StatusSummary};
use crate::store::{self, Store};
use crate::strmap::{self, Data, StrMap};
use crate::text;
use crate::tree::{self, TreeQuery};
use vstd::prelude::*;

verus! {

/// What a command prints: the lines of its output and of its diagnostics.
pub struct Printed {
    pub out: Vec<String>,
    pub err: Vec<String>,
}

/// What stands for an empty list: by what was asked for.
pub open spec fn placeholder(criteria: nat, open: bool, ready: bool) -> Seq<char> {
    if ready {
        "(nothing ready)"@
    } else if criteria == 0 && !open {
        "(no tasks)"@
    } else {
        "(no matches)"@
    }
}

fn empty_text(criteria: usize, open: bool, ready: bool) -> (r: &'static str)
    ensures
        r@ == placeholder(criteria as nat, open, ready),
{
    if ready {
        "(nothing ready)"
    } else if criteria == 0 && !open {
        "(no tasks)"
    } else {
        "(no matches)"
    }
}

/// The flags with the layout settled: the chosen one, else `fallback`.
pub open spec fn laid_out(d: DisplayArgs, fallback: Layout) -> DisplayArgs {
    DisplayArgs {
        layout: Some(
            match d.layout {
                Some(l) => l,
                None => fallback,
            },
        ),
        ..d
    }
}

fn lay_out(d: DisplayArgs, fallback: Layout) -> (r: DisplayArgs)
    ensures
        r == laid_out(d, fallback),
{
    let layout = match d.layout {
        Some(l) => l,
        None => fallback,
    };
    DisplayArgs {
        output: d.output,
        full: d.full,
        columns: d.columns,
        sort: d.sort,
        reverse: d.reverse,
        layout: Some(layout),
    }
}

/// Whether `t` is the view of `tasks` in the order the flags ask for.
pub open spec fn is_view(
    t: Seq<char>,
    tasks: Seq<TaskV>,
    d: DisplayArgs,
    cfg: DisplayConfig,
    gating: Set<Seq<char>>,
    color: bool,
    empty: Seq<char>,
) -> bool {
    exists|sorted: Seq<TaskV>|
        {
            &&& order::in_column_order(sorted, display::sort_key(d, cfg), d.reverse)
            &&& sorted.to_multiset() == tasks.to_multiset()
            &&& t == #[trigger] display::view_text(sorted, d, cfg, gating, color, empty)
        }
}

/// The query of a list with the given flags.
pub open spec fn asks(
    q: ListQuery,
    criteria: Seq<Seq<char>>,
    open: bool,
    ready: bool,
    d: DisplayArgs,
    cfg: DisplayConfig,
) -> bool {
    &&& q.criteria.deep_view() == criteria
    &&& q.open == open
    &&& q.ready == ready
    &&& q.display_columns.deep_view() == display::referred(d, cfg)
    &&& q.sort@ == display::sort_key(d, cfg)
    &&& q.reverse == d.reverse
}

/// Whether `p` is what a list prints: the warnings, and the view of the tasks
/// that the query finds.
pub open spec fn lists(
    p: Printed,
    q: ListQuery,
    o: ListOutcome,
    d: DisplayArgs,
    store: Store,
    color: bool,
) -> bool {
    &&& p.err.deep_view() == report::warning_lines(o.warnings.deep_view())
    &&& p.out.len() == 1
    &&& is_view(
        p.out@[0]@,
        o.tasks.deep_view(),
        laid_out(d, store.config.display.list_layout),
        store.config.display,
        store.gates(),
        color,
        placeholder(q.criteria.deep_view().len(), q.open, q.ready),
    )
}

/// Whether the tasks that a query looks at wait for each other in a circle.
pub open spec fn tangled(
    q: ListQuery,
    store: Store,
    schema: SchemaReading,
    cs: Seq<CriterionV>,
) -> bool {
    reach::cyclic(graph::dep_edges(q.over(store, schema, cs), store.gates()))
}

/// Whether `p` is the print of what some query for the given flags finds.
pub open spec fn list_prints(
    p: Printed,
    store: Store,
    schema: SchemaReading,
    criteria: Seq<Seq<char>>,
    cs: Seq<CriterionV>,
    open: bool,
    ready: bool,
    d: DisplayArgs,
    color: bool,
) -> bool {
    exists|q: ListQuery, o: ListOutcome|
        {
            &&& asks(q, criteria, open, ready, d, store.config.display)
            &&& list::is_listing(o, q, store, schema, cs)
            &&& #[trigger] lists(p, q, o, d, store, color)
        }
}

/// Whether the tasks for the given flags wait for each other in a circle.
pub open spec fn list_tangled(
    store: Store,
    schema: SchemaReading,
    criteria: Seq<Seq<char>>,
    cs: Seq<CriterionV>,
    open: bool,
    ready: bool,
    d: DisplayArgs,
) -> bool {
    exists|q: ListQuery|
        asks(q, criteria, open, ready, d, store.config.display) && #[trigger] tangled(
            q,
            store,
            schema,
            cs,
        )
}

/// Lists the tasks that match the criteria.
pub fn cmd_list(
    store: &Store,
    schema: &SchemaReading,
    criteria: &Vec<String>,
    open: bool,
    ready: bool,
    display: DisplayArgs,
    color: bool,
) -> (r: Result<Printed, String>)
    ensures
        match list::all_compiled(criteria.deep_view()) {
            Err(m) => r matches Err(e) && e@ == m,
            Ok(cs) => match r {
                Ok(p) => list_prints(
                    p,
                    *store,
                    *schema,
                    criteria.deep_view(),
                    cs,
                    open,
                    ready,
                    display,
                    color,
                ),
                Err(m) => {
                    &&& ready && m@ == graph::cycle_message()
                    &&& list_tangled(
                        *store,
                        *schema,
                        criteria.deep_view(),
                        cs,
                        open,
                        ready,
                        display,
                    )
                },
            },
        },
{
    let cfg = &store.config.display;
    let columns = display::referenced_columns(&display, cfg);
    let reverse = display.reverse;
    let sort = match &display.sort {
        Some(s) => s.clone(),
        None => cfg.sort.clone(),
    };
    let query = ListQuery {
        criteria,
        open,
        ready,
        display_columns: &columns,
        sort: sort.as_str(),
        reverse,
    };
    assert(asks(query, criteria.deep_view(), open, ready, display, store.config.display));
    let ghost given = display;
    match list::list_tasks(store, schema, &query) {
        Ok(outcome) => {
            let err = report::render_warnings(&outcome.warnings);
            let blockers = store.config.relationships.blocker_types();
            let flags = lay_out(display, cfg.list_layout);
            let view = display::print_tasks(
                &outcome.tasks,
                &flags,
                cfg,
                &blockers,
                color,
                empty_text(criteria.len(), open, ready),
            );
            let mut out: Vec<String> = Vec::new();
            out.push(view);
            let printed = Printed { out, err };
            assert(criteria.deep_view().len() == criteria.len());
            proof {
                let cs = list::all_compiled(criteria.deep_view())->Ok_0;
                assert(list::is_listing(outcome, query, *store, *schema, cs));
                assert(asks(query, criteria.deep_view(), open, ready, given, store.config.display));
                assert(lists(printed, query, outcome, given, *store, color));
                assert(list_prints(
                    printed,
                    *store,
                    *schema,
                    criteria.deep_view(),
                    cs,
                    open,
                    ready,
                    given,
                    color,
                ));
            }
            Ok(printed)
        },
        Err(m) => {
            proof {
                if list::all_compiled(criteria.deep_view()) is Ok {
                    let cs = list::all_compiled(criteria.deep_view())->Ok_0;
                    assert(tangled(query, *store, *schema, cs));
                }
            }
            Err(m)
        },
    }
}

/// The tasks under the given ids.
pub open spec fn picked(s: StateV, ids: Seq<Seq<char>>) -> Seq<TaskV> {
    Seq::new(ids.len(), |i: int| s[ids[i]])
}

/// Whether `p` is what a list of ready tasks prints.
pub open spec fn lists_ready(
    p: Printed,
    ids: Seq<Seq<char>>,
    s: StateV,
    d: DisplayArgs,
    store: Store,
    color: bool,
) -> bool {
    &&& ids.no_duplicates()
    &&& forall|id: Seq<char>| #[trigger]
        ids.contains(id) <==> graph::ready_task(
            s,
            id,
            store.config.workflow.status_field@,
            store.config.workflow.done_status@,
            store.gates(),
        )
    &&& p.out.len() == 1
    &&& is_view(
        p.out@[0]@,
        picked(s, ids),
        d,
        store.config.display,
        store.gates(),
        color,
        "(nothing ready)"@,
    )
}

/// Lists the tasks that are ready: not done, with nothing left to wait for.
pub fn cmd_ready(
    store: &Store,
    schema: &SchemaReading,
    display: &DisplayArgs,
    color: bool,
) -> (r: Result<
    Printed,
    String,
>)
    ensures
        ({
            let s = store.shown(*schema);
            match r {
                Ok(p) => {
                    &&& !reach::cyclic(graph::dep_edges(s, store.gates()))
                    &&& exists|ids: Seq<Seq<char>>| #[trigger]
                        lists_ready(p, ids, s, *display, *store, color)
                    &&& p.err.deep_view() == report::warning_lines(store.warned(*schema))
                },
                Err(m) => reach::cyclic(graph::dep_edges(s, store.gates())) && m@
                    == graph::cycle_message(),
            }
        }),
{
    let session = read::read(store, schema);
    let state = session.state;
    let w = &store.config.workflow;
    let blockers = store.config.relationships.blocker_types();
    let ready = match graph::ready_tasks(
        &state,
        w.status_field.as_str(),
        w.done_status.as_str(),
        &blockers,
    ) {
        Ok(v) => v,
        Err(m) => {
            return Err(m);
        },
    };
    let ghost ids = ready.deep_view();
    assert forall|k: int| 0 <= k < ids.len() implies state@.contains_key(#[trigger] ids[k]) by {
        assert(ids.contains(ids[k]));
    }
    let mut tasks: Vec<TaskState> = Vec::new();
    let mut i: usize = 0;
    while i < ready.len()
        invariant
            i <= ready.len(),
            ids == ready.deep_view(),
            forall|k: int| 0 <= k < ids.len() ==> state@.contains_key(#[trigger] ids[k]),
            tasks@.len() == i,
            forall|k: int| 0 <= k < i ==> (#[trigger] tasks@[k])@ == state@[ids[k]],
        decreases ready.len() - i,
    {
        assert(ids[i as int] == ready@[i as int]@);
        match state.get(ready[i].as_str()) {
            Some(t) => tasks.push(t.copy()),
            None => {},
        }
        i += 1;
    }
    assert(tasks.deep_view() =~= picked(state@, ids));
    let err = report::render_warnings(&session.warnings);
    let view = display::print_tasks(
        &tasks,
        display,
        &store.config.display,
        &blockers,
        color,
        "(nothing ready)",
    );
    let mut out: Vec<String> = Vec::new();
    out.push(view);
    let printed = Printed { out, err };
    assert(lists_ready(printed, ids, store.shown(*schema), *display, *store, color));
    Ok(printed)
}

/// The columns a task is shown with: the chosen ones, else all its fields.
pub open spec fn show_columns(
    d: DisplayArgs,
    cfg: DisplayConfig,
    tasks: Seq<TaskV>,
) -> Seq<Seq<char>> {
    match d.columns {
        Some(c) => c.deep_view(),
        None => display::all_columns(tasks, cfg.columns.deep_view()),
    }
}

/// Shows tasks by id.
pub fn cmd_show(
    store: &Store,
    schema: &SchemaReading,
    ids: &Vec<String>,
    display: DisplayArgs,
    color: bool,
) -> (r: Result<Printed, String>)
    ensures
        ({
            let s = store.shown(*schema);
            let wanted = show::firsts(ids.deep_view());
            let missing = show::absent(s, wanted);
            let tasks = show::present(s, store.config.relationships.types@, wanted);
            let cfg = store.config.display;
            match r {
                Ok(p) => {
                    &&& missing.len() == 0
                    &&& p.err.deep_view() == report::warning_lines(store.warned(*schema))
                    &&& p.out.deep_view() == seq![
                        display::rows_text(
                            tasks,
                            show_columns(display, cfg, tasks),
                            laid_out(display, cfg.show_layout),
                            cfg,
                            store.gates(),
                            color,
                        ),
                    ]
                },
                Err(m) => missing.len() > 0 && m@ == show::missing_message(missing),
            }
        }),
{
    let outcome = match show::show(store, schema, ids) {
        Ok(o) => o,
        Err(m) => {
            return Err(m);
        },
    };
    let err = report::render_warnings(&outcome.warnings);
    let cfg = &store.config.display;
    let columns = match &display.columns {
        Some(c) => c.copy(),
        None => display::full_columns(&outcome.tasks, cfg),
    };
    let flags = lay_out(display, cfg.show_layout);
    let blockers = store.config.relationships.blocker_types();
    let view = display::render_rows(&outcome.tasks, &columns, &flags, cfg, &blockers, color);
    let mut out: Vec<String> = Vec::new();
    out.push(view);
    assert(out.deep_view() =~= seq![view@]);
    Ok(Printed { out, err })
}

/// The `dep` commands.
pub enum DepAction {
    /// Adds `type=target` edges.
    Add { task: String, edges: Vec<String> },
    /// Removes `type=target` edges.
    Remove { task: String, edges: Vec<String> },
    /// Draws the dependency forest.
    Tree { tasks: Vec<String>, open: bool, sort: Option<String>, reverse: bool, output: OutputArgs },
    /// Reports the cycles.
    Cycles { output: OutputArgs },
    /// Lists what is left to do for goals.
    Plan { goals: Vec<String>, critical: bool, output: OutputArgs },
}

/// What a `dep` command leads to.
pub enum DepStep {
    /// Events to write, and how to report them.
    Write { events: Vec<MutationEvent>, task: String, verb: &'static str },
    Print(Printed),
}

/// The columns but for the id and the edges, which the tree itself shows.
pub open spec fn node_columns(columns: Seq<Seq<char>>) -> Seq<Seq<char>>
    decreases columns.len(),
{
    if columns.len() == 0 {
        Seq::empty()
    } else {
        let rest = node_columns(columns.drop_last());
        if columns.last() == ID_KEY@ || columns.last() == DEPS_KEY@ {
            rest
        } else {
            rest.push(columns.last())
        }
    }
}

fn columns_of_nodes(columns: &Vec<String>) -> (r: Vec<String>)
    ensures
        r.deep_view() == node_columns(columns.deep_view()),
{
    let ghost all = columns.deep_view();
    let mut out: Vec<String> = Vec::new();
    let mut i: usize = 0;
    assert(all.take(0) =~= Seq::empty());
    assert(out.deep_view() =~= Seq::empty());
    while i < columns.len()
        invariant
            i <= columns.len(),
            all == columns.deep_view(),
            out.deep_view() == node_columns(all.take(i as int)),
        decreases columns.len() - i,
    {
        let ghost longer = all.take(i as int + 1);
        assert(longer.drop_last() =~= all.take(i as int));
        let c = columns[i].as_str();
        assert(longer.last() == c@);
        if !text::same_text(c, ID_KEY) && !text::same_text(c, DEPS_KEY) {
            let ghost had = out.deep_view();
            out.push(columns[i].clone());
            assert(out.deep_view() =~= had.push(c@));
        }
        i += 1;
    }
    assert(all.take(all.len() as int) =~= all);
    out
}

/// The query of a tree with the given flags.
pub open spec fn draws(
    q: TreeQuery,
    tasks: Seq<Seq<char>>,
    open: bool,
    sort: Option<Seq<char>>,
    reverse: bool,
    cfg: DisplayConfig,
) -> bool {
    &&& q.roots.deep_view() == tasks
    &&& q.open == open
    &&& q.reverse == reverse
    &&& q.columns.deep_view() == node_columns(cfg.columns.deep_view())
    &&& q.sort@ == match sort {
        Some(s) => s,
        None => cfg.sort@,
    }
}

/// The lines of a forest: a placeholder for none, else the drawing or the
/// objects.
pub open spec fn forest_lines(
    nodes: Seq<tree::NodeV>,
    open: bool,
    output: OutputArgs,
    color: bool,
    status_field: Seq<char>,
) -> Seq<Seq<char>> {
    display::emitted(
        output.format,
        if nodes.len() == 0 {
            if open {
                "(nothing open)"@
            } else {
                "(no tasks)"@
            }
        } else {
            forest::forest_text(nodes, color, status_field)
        },
        JsonV::List(forest::node_values(nodes, nodes.len())),
    )
}

/// Whether `p` is what a tree prints for a query.
pub open spec fn tree_printed(
    p: Printed,
    q: TreeQuery,
    store: Store,
    schema: SchemaReading,
    output: OutputArgs,
    color: bool,
) -> bool {
    let c = q.over(store, schema);
    &&& dep::first_missing(c.state, q.roots.deep_view()) is None
    &&& p.err.deep_view() == report::warning_lines(store.warned(schema))
    &&& p.out.deep_view() == forest_lines(
        tree::forest_of(c, tree::shown_roots(c, q.roots.deep_view())).0,
        q.open,
        output,
        color,
        store.config.workflow.status_field@,
    )
}

/// Whether `m` names the first root of a query that is no task.
pub open spec fn tree_refused(
    m: Seq<char>,
    q: TreeQuery,
    store: Store,
    schema: SchemaReading,
) -> bool {
    let missing = dep::first_missing(q.over(store, schema).state, q.roots.deep_view());
    missing is Some && m == dep::no_task(missing->0)
}

/// Whether `p` is what a tree with the given flags prints.
pub open spec fn tree_prints(
    p: Printed,
    store: Store,
    schema: SchemaReading,
    tasks: Seq<Seq<char>>,
    open: bool,
    sort: Option<Seq<char>>,
    reverse: bool,
    output: OutputArgs,
    color: bool,
) -> bool {
    exists|q: TreeQuery|
        draws(q, tasks, open, sort, reverse, store.config.display) && #[trigger] tree_printed(
            p,
            q,
            store,
            schema,
            output,
            color,
        )
}

/// Whether `m` is why a tree with the given flags is refused.
pub open spec fn tree_refuses(
    m: Seq<char>,
    store: Store,
    schema: SchemaReading,
    tasks: Seq<Seq<char>>,
    open: bool,
    sort: Option<Seq<char>>,
    reverse: bool,
) -> bool {
    exists|q: TreeQuery|
        draws(q, tasks, open, sort, reverse, store.config.display) && #[trigger] tree_refused(
            m,
            q,
            store,
            schema,
        )
}

/// Draws the dependency forest.
pub fn dep_tree(
    store: &Store,
    schema: &SchemaReading,
    tasks: &Vec<String>,
    open: bool,
    sort: &Option<String>,
    reverse: bool,
    output: &OutputArgs,
    color: bool,
) -> (r: Result<Printed, String>)
    ensures
        match r {
            Ok(p) => tree_prints(
                p,
                *store,
                *schema,
                tasks.deep_view(),
                open,
                sort.deep_view(),
                reverse,
                *output,
                color,
            ),
            Err(m) => tree_refuses(
                m@,
                *store,
                *schema,
                tasks.deep_view(),
                open,
                sort.deep_view(),
                reverse,
            ),
        },
{
    let cfg = &store.config.display;
    let columns = columns_of_nodes(&cfg.columns);
    let column = match sort {
        Some(s) => s.as_str(),
        None => cfg.sort.as_str(),
    };
    let query = TreeQuery { roots: tasks, open, reverse, columns: &columns, sort: column };
    assert(draws(
        query,
        tasks.deep_view(),
        open,
        sort.deep_view(),
        reverse,
        store.config.display,
    ));
    let outcome = match tree::tree(store, schema, &query) {
        Ok(o) => o,
        Err(m) => {
            proof {
                assert(tree_refused(m@, query, *store, *schema));
                assert(tree_refuses(
                    m@,
                    *store,
                    *schema,
                    tasks.deep_view(),
                    open,
                    sort.deep_view(),
                    reverse,
                ));
            }
            return Err(m);
        },
    };
    let err = report::render_warnings(&outcome.warnings);
    let value = forest::forest_json(&outcome.forest);
    assert(outcome.forest.deep_view().len() == outcome.forest.len());
    let human = if outcome.forest.len() == 0 {
        if open {
            String::from_str("(nothing open)")
        } else {
            String::from_str("(no tasks)")
        }
    } else {
        forest::render_human_forest(
            &outcome.forest,
            color,
            store.config.workflow.status_field.as_str(),
        )
    };
    let out = display::emit(output, human.as_str(), &value);
    let printed = Printed { out, err };
    proof {
        assert(tree_printed(printed, query, *store, *schema, *output, color));
        assert(tree_prints(
            printed,
            *store,
            *schema,
            tasks.deep_view(),
            open,
            sort.deep_view(),
            reverse,
            *output,
            color,
        ));
    }
    Ok(printed)
}

/// Whether `p` is what is printed of the counts `sum`.
pub open spec fn status_printed(
    p: Printed,
    sum: StatusSummary,
    store: Store,
    schema: SchemaReading,
    output: OutputArgs,
    color: bool,
) -> bool {
    let seq = read::last_number(store.log());
    &&& status::summarizes(
        sum,
        store.shown(schema),
        store.config.workflow.status_field@,
        store.config.workflow.done_status@,
        store.gates(),
    )
    &&& p.err.deep_view() == report::warning_lines(store.warned(schema))
    &&& p.out.deep_view() == display::emitted(
        output.format,
        report::status_text(sum, seq, color),
        report::status_value(sum, seq),
    )
}

/// Whether `p` is what `status` prints of the counts.
pub open spec fn status_prints(
    p: Printed,
    store: Store,
    schema: SchemaReading,
    output: OutputArgs,
    color: bool,
) -> bool {
    exists|sum: StatusSummary| #[trigger] status_printed(p, sum, store, schema, output, color)
}

/// What `status` prints: the number of the last event alone, or the counts.
pub fn cmd_status(
    store: &Store,
    schema: &SchemaReading,
    current: bool,
    output: &OutputArgs,
    color: bool,
) -> (r: Result<Printed, String>)
    ensures
        r is Err <==> !current && reach::cyclic(
            graph::dep_edges(store.shown(*schema), store.gates()),
        ),
        match r {
            Ok(p) => if current {
                let seq = read::last_number(store.log());
                &&& p.err.len() == 0
                &&& p.out.deep_view() == display::emitted(
                    output.format,
                    text::decimal(seq as nat),
                    json::object(map!["seq"@ => report::number(seq)]),
                )
            } else {
                status_prints(p, *store, *schema, *output, color)
            },
            Err(m) => m@ == graph::cycle_message(),
        },
{
    if current {
        let n = store.mutations.len();
        assert(store.log().len() == n);
        let seq: u64 = if n == 0 {
            0
        } else {
            assert(store.log().last() == store.mutations@[n - 1].deep_view());
            store.mutations[n - 1].seq
        };
        let mut m: StrMap<Json> = StrMap::new();
        m.insert(String::from_str("seq"), Json::Num(JsonNumber::from_u64(seq)));
        assert(m@ =~= map!["seq"@ => report::number(seq)]);
        let human = text::decimal_text(seq);
        let out = display::emit(output, human.as_str(), &json::make_object(m));
        return Ok(Printed { out, err: Vec::new() });
    }
    match status::status(store, schema) {
        Err(m) => Err(m),
        Ok(o) => {
            let err = report::render_warnings(&o.warnings);
            let human = report::render_status_human(&o.summary, o.seq, color);
            let value = report::status_to_json_value(&o.summary, o.seq);
            let p = Printed { out: display::emit(output, human.as_str(), &value), err };
            assert(status_printed(p, o.summary, *store, *schema, *output, color));
            Ok(p)
        },
    }
}

/// Whether `p` is what is printed of the facts over the counts `sum`.
pub open spec fn prime_printed(
    p: Printed,
    sum: StatusSummary,
    store: Store,
    schema: SchemaReading,
    output: OutputArgs,
) -> bool {
    let facts = prime::facts_of(store.config, sum);
    &&& status::summarizes(
        sum,
        store.shown(schema),
        store.config.workflow.status_field@,
        store.config.workflow.done_status@,
        store.gates(),
    )
    &&& p.err.deep_view() == report::warning_lines(store.warned(schema))
    &&& p.out.deep_view() == display::emitted(
        output.format,
        guide::guide_text(facts),
        guide::facts_value(facts),
    )
}

/// Whether `p` is what `prime` prints.
pub open spec fn prime_prints(
    p: Printed,
    store: Store,
    schema: SchemaReading,
    output: OutputArgs,
) -> bool {
    exists|sum: StatusSummary| #[trigger] prime_printed(p, sum, store, schema, output)
}

/// What `prime` prints: the guide, or the facts it is written from.
pub fn cmd_prime(store: &Store, schema: &SchemaReading, output: &OutputArgs) -> (r: Result<
    Printed,
    String,
>)
    ensures
        r is Err <==> reach::cyclic(graph::dep_edges(store.shown(*schema), store.gates())),
        match r {
            Ok(p) => prime_prints(p, *store, *schema, *output),
            Err(m) => m@ == graph::cycle_message(),
        },
{
    match prime::prime(store, schema) {
        Err(m) => Err(m),
        Ok(o) => {
            let err = report::render_warnings(&o.warnings);
            let human = guide::render_guide(&o.facts);
            let value = guide::facts_json(&o.facts);
            let p = Printed { out: display::emit(output, human.as_str(), &value), err };
            proof {
                let sum = choose|sum: StatusSummary|
                    status::summarizes(
                        sum,
                        store.shown(*schema),
                        store.config.workflow.status_field@,
                        store.config.workflow.done_status@,
                        store.gates(),
                    ) && o.facts.deep_view() == #[trigger] prime::facts_of(store.config, sum);
                assert(prime_printed(p, sum, *store, *schema, *output));
            }
            Ok(p)
        },
    }
}

/// Reports the cycles of the blocker graph.
pub fn dep_cycles(
    store: &Store,
    schema: &SchemaReading,
    output: &OutputArgs,
    color: bool,
) -> (r: Printed)
    ensures
        ({
            let cycles = graph::cycle_list(store.shown(*schema), store.gates());
            &&& r.err.deep_view() == report::warning_lines(store.warned(*schema))
            &&& r.out.deep_view() == display::emitted(
                output.format,
                report::cycles_text(cycles, color),
                report::cycles_value(cycles),
            )
        }),
{
    let outcome = dep::cycles(store, schema);
    let err = report::render_warnings(&outcome.warnings);
    let human = report::cycles_human(&outcome, color);
    let value = report::cycles_json(&outcome);
    Printed { out: display::emit(output, human.as_str(), &value), err }
}

/// Whether `p` is what a plan prints.
pub open spec fn plan_printed(
    p: Printed,
    o: dep::PlanOutcome,
    store: Store,
    schema: SchemaReading,
    goals: Seq<Seq<char>>,
    critical: bool,
    output: OutputArgs,
    color: bool,
) -> bool {
    let s = store.shown(schema);
    let sub = dep::needed(s, store.gates(), goals);
    &&& dep::first_missing(s, goals) is None
    &&& !reach::cyclic(graph::dep_edges(sub, store.gates()))
    &&& dep::is_plan(
        o,
        sub,
        store.gates(),
        store.config.workflow.status_field@,
        store.config.workflow.done_status@,
        critical,
    )
    &&& p.err.deep_view() == report::warning_lines(store.warned(schema))
    &&& p.out.deep_view() == display::emitted(
        output.format,
        report::plan_text(o.steps@, o.total as nat, o.critical, color),
        JsonV::List(Seq::new(o.steps@.len(), |i: int| report::step_value(o.steps@[i]))),
    )
}

/// Whether `p` is the print of some plan for the goals.
pub open spec fn plan_prints(
    p: Printed,
    store: Store,
    schema: SchemaReading,
    goals: Seq<Seq<char>>,
    critical: bool,
    output: OutputArgs,
    color: bool,
) -> bool {
    exists|o: dep::PlanOutcome| #[trigger]
        plan_printed(p, o, store, schema, goals, critical, output, color)
}

/// Lists what is left to do for the goals, in order.
pub fn dep_plan(
    store: &Store,
    schema: &SchemaReading,
    goals: &Vec<String>,
    critical: bool,
    output: &OutputArgs,
    color: bool,
) -> (r: Result<Printed, String>)
    ensures
        ({
            let s = store.shown(*schema);
            let sub = dep::needed(s, store.gates(), goals.deep_view());
            let missing = dep::first_missing(s, goals.deep_view());
            match r {
                Ok(p) => plan_prints(
                    p,
                    *store,
                    *schema,
                    goals.deep_view(),
                    critical,
                    *output,
                    color,
                ),
                Err(m) => if missing is Some {
                    m@ == dep::no_task(missing->0)
                } else {
                    reach::cyclic(graph::dep_edges(sub, store.gates())) && m@
                        == graph::cycle_message()
                },
            }
        }),
{
    let outcome = match dep::plan(store, schema, goals, critical) {
        Ok(o) => o,
        Err(m) => {
            return Err(m);
        },
    };
    let err = report::render_warnings(&outcome.warnings);
    let human = report::plan_human(&outcome, color);
    let value = report::plan_json(&outcome);
    let out = display::emit(output, human.as_str(), &value);
    let printed = Printed { out, err };
    assert(plan_printed(
        printed,
        outcome,
        *store,
        *schema,
        goals.deep_view(),
        critical,
        *output,
        color,
    ));
    assert(plan_prints(
        printed,
        *store,
        *schema,
        goals.deep_view(),
        critical,
        *output,
        color,
    ));
    Ok(printed)
}

/// Whether `r` is the events of a change of edges, or why there are none.
pub open spec fn edges_result(
    r: Result<Seq<EventV>, Seq<char>>,
    store: Store,
    task: Seq<char>,
    words: Seq<Seq<char>>,
    removing: bool,
    at: Timestamp,
) -> bool {
    let types = store.config.relationships.types@;
    let found = edges::args_edges(words, task, types, removing);
    let wrong = edges::first_arg_error(words, task, types, removing);
    let broken = if removing {
        None
    } else {
        edges::first_violation(
            store.state(),
            crate::config::gating_types(types),
            crate::config::subtask_types(types),
            found,
        )
    };
    match r {
        Ok(events) => wrong is None && broken is None && events == edges::edge_events(
            if removing {
                OpType::RemoveEdge
            } else {
                OpType::AddEdge
            },
            found,
            at,
        ),
        Err(m) => (if wrong is Some { wrong } else { broken }) == Some(m),
    }
}

fn edge_change(
    store: &Store,
    task: &str,
    words: &Vec<String>,
    removing: bool,
    at: Timestamp,
) -> (r: Result<
    Vec<MutationEvent>,
    String,
>)
    ensures
        edges_result(
            match r {
                Ok(events) => Ok(events.deep_view()),
                Err(m) => Err(m@),
            },
            *store,
            task@,
            words.deep_view(),
            removing,
            at,
        ),
{
    let state = store::materialize(&store.config, &store.baseline, &store.mutations);
    edges::apply_edges(&state, task, words, removing, &store.config.relationships, at)
}

/// Runs a `dep` command: those that change edges give the events to write, the
/// others what they print.
pub fn cmd_dep_group(
    store: &Store,
    schema: &SchemaReading,
    action: &DepAction,
    at: Timestamp,
    color: bool,
) -> (r: Result<DepStep, String>)
    ensures
        match action {
            DepAction::Add { task, edges } => match r {
                Ok(DepStep::Write { events, task: t, verb }) => t@ == task@ && verb@ == "Added"@
                    && edges_result(
                    Ok(events.deep_view()),
                    *store,
                    task@,
                    edges.deep_view(),
                    false,
                    at,
                ),
                Ok(DepStep::Print(_)) => false,
                Err(m) => edges_result(Err(m@), *store, task@, edges.deep_view(), false, at),
            },
            DepAction::Remove { task, edges } => match r {
                Ok(DepStep::Write { events, task: t, verb }) => t@ == task@ && verb@ == "Removed"@
                    && edges_result(
                    Ok(events.deep_view()),
                    *store,
                    task@,
                    edges.deep_view(),
                    true,
                    at,
                ),
                Ok(DepStep::Print(_)) => false,
                Err(m) => edges_result(Err(m@), *store, task@, edges.deep_view(), true, at),
            },
            DepAction::Tree { tasks, open, sort, reverse, output } => match r {
                Ok(DepStep::Print(p)) => tree_prints(
                    p,
                    *store,
                    *schema,
                    tasks.deep_view(),
                    *open,
                    sort.deep_view(),
                    *reverse,
                    *output,
                    color,
                ),
                Ok(DepStep::Write { .. }) => false,
                Err(m) => tree_refuses(
                    m@,
                    *store,
                    *schema,
                    tasks.deep_view(),
                    *open,
                    sort.deep_view(),
                    *reverse,
                ),
            },
            DepAction::Cycles { output } => {
                let cycles = graph::cycle_list(store.shown(*schema), store.gates());
                r matches Ok(DepStep::Print(p)) && p.err.deep_view() == report::warning_lines(
                    store.warned(*schema),
                ) && p.out.deep_view() == display::emitted(
                    output.format,
                    report::cycles_text(cycles, color),
                    report::cycles_value(cycles),
                )
            },
            DepAction::Plan { goals, critical, output } => match r {
                Ok(DepStep::Print(p)) => plan_prints(
                    p,
                    *store,
                    *schema,
                    goals.deep_view(),
                    *critical,
                    *output,
                    color,
                ),
                Ok(DepStep::Write { .. }) => false,
                Err(m) => {
                    let s = store.shown(*schema);
                    let missing = dep::first_missing(s, goals.deep_view());
                    if missing is Some {
                        m@ == dep::no_task(missing->0)
                    } else {
                        m@ == graph::cycle_message() && reach::cyclic(
                            graph::dep_edges(
                                dep::needed(s, store.gates(), goals.deep_view()),
                                store.gates(),
                            ),
                        )
                    }
                },
            },
        },
{
    match action {
        DepAction::Add { task, edges } => match edge_change(store, task.as_str(), edges, false, at) {
            Ok(events) => Ok(DepStep::Write { events, task: task.clone(), verb: "Added" }),
            Err(m) => Err(m),
        },
        DepAction::Remove { task, edges } => match edge_change(
            store,
            task.as_str(),
            edges,
            true,
            at,
        ) {
            Ok(events) => Ok(DepStep::Write { events, task: task.clone(), verb: "Removed" }),
            Err(m) => Err(m),
        },
        DepAction::Tree { tasks, open, sort, reverse, output } => match dep_tree(
            store,
            schema,
            tasks,
            *open,
            sort,
            *reverse,
            output,
            color,
        ) {
            Ok(p) => Ok(DepStep::Print(p)),
            Err(m) => Err(m),
        },
        DepAction::Cycles { output } => Ok(
            DepStep::Print(dep_cycles(store, schema, output, color)),
        ),
        DepAction::Plan { goals, critical, output } => match dep_plan(
            store,
            schema,
            goals,
            *critical,
            output,
            color,
        ) {
            Ok(p) => Ok(DepStep::Print(p)),
            Err(m) => Err(m),
        },
    }
}

/// The `config` commands.
pub enum ConfigAction {
    /// Prints one value.
    Get { key: String },
    /// Changes one value.
    Assign { key: String, value: String },
    /// Prints every value.
    List,
    /// Checks the configuration against the tasks.
    Validate,
}

/// What a `config` command leads to.
pub enum ConfigStep {
    /// The new file, to be read back and checked before it is written, and the
    /// value as it was written.
    Write { file: String, key: String, shown: String },
    Print(Printed),
}

/// The first key, in order, whose value cannot be shown.
pub open spec fn hidden_key(pairs: Seq<(Seq<char>, settings::TomlV)>) -> Option<Seq<char>>
    decreases pairs.len(),
{
    if pairs.len() == 0 {
        None
    } else {
        match hidden_key(pairs.drop_last()) {
            Some(k) => Some(k),
            None => if settings::shown(pairs.last().1) is None {
                Some(pairs.last().0)
            } else {
                None
            },
        }
    }
}

/// What is said of a value that cannot be shown.
pub open spec fn hidden_text(key: Seq<char>) -> Seq<char> {
    "the value of `"@ + key + "` holds a date that is none"@
}

fn hidden(key: &str) -> (r: String)
    ensures
        r@ == hidden_text(key@),
{
    text::cat3("the value of `", key, "` holds a date that is none")
}

/// The line of one value.
pub open spec fn value_line(pair: (Seq<char>, settings::TomlV)) -> Seq<char> {
    pair.0 + " = "@ + settings::shown(pair.1)->0
}

/// The lines of values, or what is said of the first that cannot be shown.
pub open spec fn pair_lines(pairs: Seq<(Seq<char>, settings::TomlV)>) -> Result<
    Seq<Seq<char>>,
    Seq<char>,
> {
    match hidden_key(pairs) {
        Some(key) => Err(hidden_text(key)),
        None => Ok(Seq::new(pairs.len(), |i: int| value_line(pairs[i]))),
    }
}

/// Whether `said` is what listing every value of a configuration, by key, gives.
pub open spec fn lists_values(
    said: Result<Seq<Seq<char>>, Seq<char>>,
    root: settings::TomlV,
) -> bool {
    exists|pairs: Seq<(Seq<char>, settings::TomlV)>| #[trigger]
        settings::sorted_by_key(pairs, settings::flattened(Seq::empty(), root)) && said
            == pair_lines(pairs)
}

fn nothing() -> (r: Vec<String>)
    ensures
        r.deep_view() == Seq::<Seq<char>>::empty(),
{
    let r: Vec<String> = Vec::new();
    assert(r.deep_view() =~= Seq::empty());
    r
}

fn value_lines(root: toml::Value) -> (r: Result<Vec<String>, String>)
    ensures
        lists_values(
            match r {
                Ok(lines) => Ok(lines.deep_view()),
                Err(m) => Err(m@),
            },
            settings::toml_content(root),
        ),
{
    let ghost whole = settings::toml_content(root);
    let pairs = settings::list(root);
    let ghost all = settings::entries_view(pairs@);
    assert(settings::sorted_by_key(all, settings::flattened(Seq::empty(), whole)));
    let mut out: Vec<String> = Vec::new();
    let mut i: usize = 0;
    assert(all.take(0) =~= Seq::empty());
    while i < pairs.len()
        invariant
            i <= pairs.len(),
            all == settings::entries_view(pairs@),
            settings::sorted_by_key(all, settings::flattened(Seq::empty(), whole)),
            whole == settings::toml_content(root),
            hidden_key(all.take(i as int)) is None,
            out@.len() == i,
            forall|k: int| 0 <= k < i ==> (#[trigger] out@[k])@ == value_line(all[k]),
        decreases pairs.len() - i,
    {
        let ghost longer = all.take(i as int + 1);
        assert(longer.drop_last() =~= all.take(i as int));
        assert(longer.last() == all[i as int]);
        assert(all[i as int] == (pairs@[i as int].0@, settings::toml_content(pairs@[i as int].1)));
        match settings::shown_value(&pairs[i].1) {
            Some(v) => {
                out.push(text::cat3(pairs[i].0.as_str(), " = ", v.as_str()));
            },
            None => {
                proof {
                    lemma_hidden_stays(all, i as int + 1);
                }
                return Err(hidden(pairs[i].0.as_str()));
            },
        }
        i += 1;
    }
    assert(all.take(all.len() as int) =~= all);
    assert(out.deep_view() =~= Seq::new(all.len(), |i: int| value_line(all[i])));
    Ok(out)
}

proof fn lemma_hidden_stays(pairs: Seq<(Seq<char>, settings::TomlV)>, n: int)
    requires
        0 <= n <= pairs.len(),
        hidden_key(pairs.take(n)) is Some,
    ensures
        hidden_key(pairs) == hidden_key(pairs.take(n)),
    decreases pairs.len(),
{
    if n < pairs.len() {
        assert(pairs.drop_last().take(n) =~= pairs.take(n));
        lemma_hidden_stays(pairs.drop_last(), n);
    } else {
        assert(pairs.take(n) =~= pairs);
    }
}

/// The warnings of a check: those of the read, then a line for each task that
/// does not conform.
pub open spec fn check_warnings(read: Seq<Seq<char>>, report: Seq<Seq<char>>) -> Seq<Seq<char>> {
    read + Seq::new(report.len(), |i: int| "warning: "@ + report[i])
}

fn warnings_of_check(report: &settings::ValidateReport) -> (r: Vec<String>)
    ensures
        r.deep_view() == check_warnings(
            report::warning_lines(report.read_warnings.deep_view()),
            report.nonconformance.deep_view(),
        ),
{
    let mut err = report::render_warnings(&report.read_warnings);
    let lines = &report.nonconformance;
    let ghost all = lines.deep_view();
    let mut more: Vec<String> = Vec::new();
    let mut i: usize = 0;
    while i < lines.len()
        invariant
            i <= lines.len(),
            all == lines.deep_view(),
            more@.len() == i,
            forall|k: int| 0 <= k < i ==> (#[trigger] more@[k])@ == "warning: "@ + all[k],
        decreases lines.len() - i,
    {
        assert(all[i as int] == lines@[i as int]@);
        more.push(text::cat2("warning: ", lines[i].as_str()));
        i += 1;
    }
    assert(more.deep_view() =~= Seq::new(all.len(), |i: int| "warning: "@ + all[i]));
    text::extend(&mut err, more);
    err
}

/// Runs a `config` command over the configuration `root` and its file: a change
/// gives the new file, the others what they print.
pub fn cmd_config(
    store: &Store,
    schema: &SchemaReading,
    root: toml::Value,
    file: &str,
    action: &ConfigAction,
) -> (r: Result<ConfigStep, String>)
    ensures
        match action {
            ConfigAction::Get { key } => {
                let found = settings::looked_up(
                    settings::toml_content(root),
                    text::split_at(key@, '.'),
                );
                match r {
                    Ok(ConfigStep::Print(p)) => found is Some && settings::shown(found->0) is Some
                        && p.out.deep_view() == seq![settings::shown(found->0)->0]
                        && p.err.deep_view() == Seq::<Seq<char>>::empty(),
                    Ok(ConfigStep::Write { .. }) => false,
                    Err(m) => if found is None {
                        m@ == "no config key `"@ + key@ + "`"@
                    } else {
                        settings::shown(found->0) is None && m@ == hidden_text(key@)
                    },
                }
            },
            ConfigAction::List => match r {
                Ok(ConfigStep::Print(p)) => p.err.deep_view() == Seq::<Seq<char>>::empty()
                    && lists_values(Ok(p.out.deep_view()), settings::toml_content(root)),
                Ok(ConfigStep::Write { .. }) => false,
                Err(m) => lists_values(Err(m@), settings::toml_content(root)),
            },
            ConfigAction::Assign { key, value } => match r {
                Ok(ConfigStep::Write { file: f, key: k, shown }) => k@ == key@
                    && settings::set_result(file@, key@, value@) == Ok::<
                    (Seq<char>, Seq<char>),
                    Seq<char>,
                >((f@, shown@)),
                Ok(ConfigStep::Print(_)) => false,
                Err(m) => settings::set_result(file@, key@, value@) == Err::<
                    (Seq<char>, Seq<char>),
                    Seq<char>,
                >(m@),
            },
            ConfigAction::Validate => {
                let s = store.shown(*schema);
                let problems = crate::config::struct_problems(store.config)
                    + crate::config::graph_problems(store.config, s);
                match r {
                    Ok(ConfigStep::Print(p)) => {
                        &&& problems.len() == 0
                        &&& p.out.deep_view() == seq![
                            settings::validated_text(s.dom().len(), schema.report.deep_view().len()),
                        ]
                        &&& p.err.deep_view() == check_warnings(
                            report::warning_lines(store.warned(*schema)),
                            schema.report.deep_view(),
                        )
                    },
                    Ok(ConfigStep::Write { .. }) => false,
                    Err(m) => problems.len() > 0 && m@ == crate::config::failure_message(problems),
                }
            },
        },
{
    match action {
        ConfigAction::Get { key } => match settings::get(&root, key.as_str()) {
            Ok(v) => match settings::shown_value(&v) {
                Some(line) => {
                    let mut out: Vec<String> = Vec::new();
                    out.push(line);
                    assert(out.deep_view() =~= seq![line@]);
                    Ok(ConfigStep::Print(Printed { out, err: nothing() }))
                },
                None => Err(hidden(key.as_str())),
            },
            Err(m) => Err(m),
        },
        ConfigAction::List => match value_lines(root) {
            Ok(out) => Ok(ConfigStep::Print(Printed { out, err: nothing() })),
            Err(m) => Err(m),
        },
        ConfigAction::Assign { key, value } => match settings::set(
            file,
            key.as_str(),
            value.as_str(),
        ) {
            Ok((text, shown)) => Ok(ConfigStep::Write { file: text, key: key.clone(), shown }),
            Err(m) => Err(m),
        },
        ConfigAction::Validate => match settings::validate(store, schema) {
            Ok(report) => {
                let err = warnings_of_check(&report);
                let line = settings::validated(&report);
                assert(report.nonconformance.deep_view().len() == report.nonconformance.len());
                let mut out: Vec<String> = Vec::new();
                out.push(line);
                assert(out.deep_view() =~= seq![line@]);
                Ok(ConfigStep::Print(Printed { out, err }))
            },
            Err(m) => Err(m),
        },
    }
}

/// What stands for an empty list: that nothing is ready, that there are no tasks,
/// or that none matches where something was asked for.
pub proof fn empty_lists_say_why(criteria: nat, open: bool, ready: bool)
    ensures
        ready ==> placeholder(criteria, open, ready) == "(nothing ready)"@,
        !ready && (open || criteria > 0) ==> placeholder(criteria, open, ready) == "(no matches)"@,
        !ready && !open && criteria == 0 ==> placeholder(criteria, open, ready) == "(no tasks)"@,
{
}

/// The nodes of a tree show the configured columns but for the id and the edges,
/// which the tree shows itself.
pub proof fn trees_leave_out_their_own(columns: Seq<Seq<char>>, x: Seq<char>)
    ensures
        node_columns(columns).contains(x) <==> columns.contains(x) && x != "id"@ && x != "deps"@,
    decreases columns.len(),
{
    if columns.len() > 0 {
        let rest = columns.drop_last();
        trees_leave_out_their_own(rest, x);
        strmap::lemma_contains_last(columns, x);
        let all = node_columns(columns);
        if columns.last() != ID_KEY@ && columns.last() != DEPS_KEY@ {
            assert(all.drop_last() =~= node_columns(rest));
            strmap::lemma_contains_last(all, x);
        }
    }
}

/// A layout that is asked for is taken, and the configured one where none is.
pub proof fn layouts_are_asked_for(d: DisplayArgs, fallback: Layout)
    ensures
        d.layout is Some ==> laid_out(d, fallback) == d,
        d.layout is None ==> laid_out(d, fallback).layout == Some(fallback),
        laid_out(d, fallback).full == d.full,
        laid_out(d, fallback).columns == d.columns,
        laid_out(d, fallback).sort == d.sort,
        laid_out(d, fallback).reverse == d.reverse,
{
}

/// What `list` prints: a view of the tasks that the filter lets through, with the
/// flags and criteria as given, in the order that is asked for.
pub proof fn lists_print_what_passes(
    store: Store,
    schema: SchemaReading,
    criteria: Vec<String>,
    open: bool,
    ready: bool,
    display: DisplayArgs,
    color: bool,
    p: Printed,
)
    requires
        call_ensures(
            cmd_list,
            (&store, &schema, &criteria, open, ready, display, color),
            Ok::<Printed, String>(p),
        ),
        store.shown(schema).dom().finite(),
        forall|id: Seq<char>|
            store.shown(schema).contains_key(id) ==> (#[trigger] store.shown(schema)[id]).id == id,
    ensures
        list::all_compiled(criteria.deep_view()) is Ok,
        exists|sorted: Seq<TaskV>| #[trigger]
            lists_them(store, schema, criteria.deep_view(), open, ready, display, color, p, sorted),
{
    broadcast use vstd::seq_lib::group_to_multiset_ensures;

    let cs = list::all_compiled(criteria.deep_view())->Ok_0;
    let cfg = store.config.display;
    let (q, o) = choose|q: ListQuery, o: ListOutcome|
        {
            &&& asks(q, criteria.deep_view(), open, ready, display, store.config.display)
            &&& list::is_listing(o, q, store, schema, cs)
            &&& #[trigger] lists(p, q, o, display, store, color)
        };
    assert(asks(q, criteria.deep_view(), open, ready, display, cfg));
    assert(list::is_listing(o, q, store, schema, cs));
    assert(lists(p, q, o, display, store, color));
    let d = laid_out(display, cfg.list_layout);
    let empty = placeholder(criteria.deep_view().len(), open, ready);
    let sorted = choose|sorted: Seq<TaskV>|
        {
            &&& order::in_column_order(sorted, display::sort_key(d, cfg), d.reverse)
            &&& sorted.to_multiset() == o.tasks.deep_view().to_multiset()
            &&& p.out@[0]@ == #[trigger] display::view_text(
                sorted,
                d,
                cfg,
                store.gates(),
                color,
                empty,
            )
        };
    let s = q.over(store, schema, cs);
    let ids = strmap::sorted_of(s.dom());
    assert(s.dom() =~= store.shown(schema).dom());
    strmap::sorted_of_finite(s.dom());
    strmap::lemma_ascending_distinct(ids);
    assert forall|i: int| 0 <= i < ids.len() implies s[#[trigger] ids[i]].id == ids[i] by {
        assert(ids.contains(ids[i]));
        assert(ids.to_set().contains(ids[i]));
        assert(store.shown(schema).contains_key(ids[i]));
        assert(store.shown(schema)[ids[i]].id == ids[i]);
    }
    let types = store.config.relationships.types@;
    let field = store.config.workflow.status_field@;
    let done = store.config.workflow.done_status@;
    let found = list::passing(s, types, field, done, ids, cs, open, ready);
    assert forall|t: TaskV| #[trigger] sorted.contains(t) <==> s.contains_key(t.id) && t == s[t.id]
        && list::passes(s, types, field, done, t, cs, open, ready) by {
        list::listings_hold_what_passes(s, types, field, done, ids, cs, open, ready, t);
        assert(ids.to_set().contains(t.id) <==> ids.contains(t.id));
        assert(sorted.to_multiset().count(t) == found.to_multiset().count(t));
        assert(sorted.contains(t) <==> sorted.to_multiset().count(t) > 0);
        assert(found.contains(t) <==> found.to_multiset().count(t) > 0);
    }
    assert(lists_them(
        store,
        schema,
        criteria.deep_view(),
        open,
        ready,
        display,
        color,
        p,
        sorted,
    ));
}

/// Whether a listing prints just these tasks, and these are the ones that pass.
pub open spec fn lists_them(
    store: Store,
    schema: SchemaReading,
    criteria: Seq<Seq<char>>,
    open: bool,
    ready: bool,
    d: DisplayArgs,
    color: bool,
    p: Printed,
    sorted: Seq<TaskV>,
) -> bool {
    let cs = list::all_compiled(criteria)->Ok_0;
    let cfg = store.config.display;
    let w = store.config.workflow;
    let column = match d.sort {
        Some(c) => c@,
        None => cfg.sort@,
    };
    let shown = match d.columns {
        Some(c) => c.deep_view(),
        None => if d.full {
            Seq::empty()
        } else {
            cfg.columns.deep_view()
        },
    };
    let s = read::with_computed(
        store.shown(schema),
        seq![column] + shown + cs.map_values(|c: CriterionV| c.field),
        store.gates(),
        store.hierarchy(),
        w.status_field@,
        w.done_status@,
    );
    let layout = match d.layout {
        Some(l) => Some(l),
        None => Some(cfg.list_layout),
    };
    &&& p.out.len() == 1
    &&& p.out@[0]@ == display::view_text(
        sorted,
        (DisplayArgs { layout, ..d }),
        cfg,
        store.gates(),
        color,
        if ready {
            "(nothing ready)"@
        } else if open || criteria.len() > 0 {
            "(no matches)"@
        } else {
            "(no tasks)"@
        },
    )
    &&& order::in_column_order(sorted, column, d.reverse)
    &&& forall|t: TaskV| #[trigger]
        sorted.contains(t) <==> s.contains_key(t.id) && t == s[t.id] && list::passes(
            s,
            store.config.relationships.types@,
            w.status_field@,
            w.done_status@,
            t,
            cs,
            open,
            ready,
        )
}

/// What `status` prints: the counts of the tasks as they read, and the number of
/// the last event; with only that number asked for, it alone.
pub proof fn counts_are_printed(
    store: Store,
    schema: SchemaReading,
    output: OutputArgs,
    color: bool,
    p: Printed,
    last: Printed,
    k: Seq<char>,
)
    requires
        call_ensures(
            cmd_status,
            (&store, &schema, false, &output, color),
            Ok::<Printed, String>(p),
        ),
        call_ensures(
            cmd_status,
            (&store, &schema, true, &output, color),
            Ok::<Printed, String>(last),
        ),
    ensures
        ({
            let w = store.config.workflow;
            let n = if store.log().len() == 0 {
                0
            } else {
                store.log().last().seq
            };
            &&& exists|sum: StatusSummary|
                {
                    &&& #[trigger] status::counts_hold(
                        sum,
                        store.shown(schema),
                        w.status_field@,
                        w.done_status@,
                        store.gates(),
                        k,
                    )
                    &&& output.format == OutputFormat::Human ==> p.out.deep_view() == seq![
                        report::status_text(sum, n, color),
                    ]
                    &&& output.format == OutputFormat::Json ==> p.out.deep_view() == seq![
                        display::pretty(report::status_value(sum, n)),
                    ]
                }
            &&& p.err.deep_view() == report::warning_lines(store.warned(schema))
            &&& last.err.len() == 0
            &&& output.format == OutputFormat::Human ==> last.out.deep_view() == seq![
                text::decimal(n as nat),
            ]
        }),
{
    let w = store.config.workflow;
    let sum = choose|sum: StatusSummary| #[trigger]
        status_printed(p, sum, store, schema, output, color);
    assert(status_printed(p, sum, store, schema, output, color));
    status::lemma_counts_hold(
        sum,
        store.shown(schema),
        w.status_field@,
        w.done_status@,
        store.gates(),
        k,
    );
}

/// What `prime` prints: the facts of the configuration, with the counts of the
/// tasks as they read.
pub proof fn facts_are_printed(
    store: Store,
    schema: SchemaReading,
    output: OutputArgs,
    p: Printed,
    k: Seq<char>,
)
    requires
        call_ensures(cmd_prime, (&store, &schema, &output), Ok::<Printed, String>(p)),
    ensures
        p.err.deep_view() == report::warning_lines(store.warned(schema)),
        exists|sum: StatusSummary|
            {
                &&& #[trigger] status::counts_hold(
                    sum,
                    store.shown(schema),
                    store.config.workflow.status_field@,
                    store.config.workflow.done_status@,
                    store.gates(),
                    k,
                )
                &&& output.format == OutputFormat::Human ==> p.out.deep_view() == seq![
                    guide::guide_text(prime::facts_of(store.config, sum)),
                ]
                &&& output.format == OutputFormat::Json ==> p.out.deep_view() == seq![
                    display::pretty(guide::facts_value(prime::facts_of(store.config, sum))),
                ]
            },
{
    let w = store.config.workflow;
    let sum = choose|sum: StatusSummary| #[trigger]
        prime_printed(p, sum, store, schema, output);
    assert(prime_printed(p, sum, store, schema, output));
    status::lemma_counts_hold(
        sum,
        store.shown(schema),
        w.status_field@,
        w.done_status@,
        store.gates(),
        k,
    );
}

/// What `dep plan` prints: the tasks that are left to do for the goals, each after
/// those that it waits for.
pub proof fn plans_are_printed(
    store: Store,
    schema: SchemaReading,
    goals: Vec<String>,
    output: OutputArgs,
    color: bool,
    p: Printed,
    id: Seq<char>,
)
    requires
        call_ensures(
            dep_plan,
            (&store, &schema, &goals, false, &output, color),
            Ok::<Printed, String>(p),
        ),
    ensures
        exists|o: dep::PlanOutcome|
            {
                &&& #[trigger] dep::plan_holds(store, schema, goals.deep_view(), o, id)
                &&& output.format == OutputFormat::Human ==> p.out.deep_view() == seq![
                    report::plan_text(o.steps@, o.total as nat, false, color),
                ]
                &&& output.format == OutputFormat::Jsonl ==> p.out.len() == o.steps.len()
                    && forall|i: int|
                    0 <= i < o.steps.len() ==> #[trigger] p.out.deep_view()[i] == json::compact(
                        report::step_value(o.steps@[i]),
                    )
            },
        p.err.deep_view() == report::warning_lines(store.warned(schema)),
{
    let want = goals.deep_view();
    let o = choose|o: dep::PlanOutcome| #[trigger]
        plan_printed(p, o, store, schema, want, false, output, color);
    assert(plan_printed(p, o, store, schema, want, false, output, color));
    dep::lemma_plan_holds(store, schema, want, o, id);
    let items = Seq::new(o.steps@.len(), |i: int| report::step_value(o.steps@[i]));
    if output.format == OutputFormat::Jsonl {
        let said = display::emitted(
            output.format,
            report::plan_text(o.steps@, o.total as nat, false, color),
            JsonV::List(items),
        );
        assert(p.out.deep_view() == said);
        assert(p.out.deep_view().len() == p.out.len());
        assert forall|i: int| 0 <= i < o.steps.len() implies #[trigger] p.out.deep_view()[i]
            == json::compact(report::step_value(o.steps@[i])) by {
            assert(said[i] == json::compact(items[i]));
        }
    }
}

/// What `ready` prints: a view of the tasks that are not done and wait for none
/// that is not done, in the order that is asked for.
pub proof fn ready_tasks_are_printed(
    store: Store,
    schema: SchemaReading,
    display: DisplayArgs,
    color: bool,
    p: Printed,
)
    requires
        call_ensures(
            cmd_ready,
            (&store, &schema, &display, color),
            Ok::<Printed, String>(p),
        ),
        forall|id: Seq<char>|
            store.shown(schema).contains_key(id) ==> (#[trigger] store.shown(schema)[id]).id == id,
    ensures
        exists|sorted: Seq<TaskV>| #[trigger] prints_ready(store, schema, display, color, p, sorted),
{
    broadcast use vstd::seq_lib::group_to_multiset_ensures;

    let s = store.shown(schema);
    let cfg = store.config.display;
    let w = store.config.workflow;
    let ids = choose|ids: Seq<Seq<char>>| #[trigger]
        lists_ready(p, ids, s, display, store, color);
    assert(lists_ready(p, ids, s, display, store, color));
    let tasks = picked(s, ids);
    let sorted = choose|sorted: Seq<TaskV>|
        {
            &&& order::in_column_order(sorted, display::sort_key(display, cfg), display.reverse)
            &&& sorted.to_multiset() == tasks.to_multiset()
            &&& p.out@[0]@ == #[trigger] display::view_text(
                sorted,
                display,
                cfg,
                store.gates(),
                color,
                "(nothing ready)"@,
            )
        };
    assert forall|t: TaskV| #[trigger] sorted.contains(t) <==> is_ready(store, schema, t) by {
        assert(sorted.to_multiset().count(t) == tasks.to_multiset().count(t));
        assert(sorted.contains(t) <==> sorted.to_multiset().count(t) > 0);
        assert(tasks.contains(t) <==> tasks.to_multiset().count(t) > 0);
        graph::tasks_wait_for_open_tasks(s, t.id, w.status_field@, w.done_status@, store.gates());
        if tasks.contains(t) {
            let i = choose|i: int| 0 <= i < tasks.len() && tasks[i] == t;
            assert(ids.contains(ids[i]));
            graph::tasks_wait_for_open_tasks(
                s,
                ids[i],
                w.status_field@,
                w.done_status@,
                store.gates(),
            );
            assert(s.contains_key(ids[i]));
            assert(s[ids[i]].id == ids[i]);
        }
        if is_ready(store, schema, t) {
            assert(ids.contains(t.id));
            let i = choose|i: int| 0 <= i < ids.len() && ids[i] == t.id;
            assert(tasks[i] == t);
        }
    }
    assert(prints_ready(store, schema, display, color, p, sorted));
}

/// Whether a task, as it reads, is not done and waits for none that is not done.
pub open spec fn is_ready(store: Store, schema: SchemaReading, t: TaskV) -> bool {
    let s = store.shown(schema);
    let w = store.config.workflow;
    &&& s.contains_key(t.id)
    &&& t == s[t.id]
    &&& !graph::finished(s, t.id, w.status_field@, w.done_status@)
    &&& forall|b: Seq<char>| #[trigger]
        graph::awaits(s, t.id, store.gates(), b) ==> graph::finished(
            s,
            b,
            w.status_field@,
            w.done_status@,
        )
}

/// Whether just these tasks are printed, and these are the ready ones.
pub open spec fn prints_ready(
    store: Store,
    schema: SchemaReading,
    d: DisplayArgs,
    color: bool,
    p: Printed,
    sorted: Seq<TaskV>,
) -> bool {
    let cfg = store.config.display;
    let column = match d.sort {
        Some(c) => c@,
        None => cfg.sort@,
    };
    &&& p.out.len() == 1
    &&& p.out@[0]@ == display::view_text(sorted, d, cfg, store.gates(), color, "(nothing ready)"@)
    &&& p.err.deep_view() == report::warning_lines(store.warned(schema))
    &&& order::in_column_order(sorted, column, d.reverse)
    &&& forall|t: TaskV| #[trigger] sorted.contains(t) <==> is_ready(store, schema, t)
}

/// What `dep tree` prints: the forest of the tasks that are asked for, with the
/// flags as given, or that there is nothing.
pub proof fn trees_are_printed(
    store: Store,
    schema: SchemaReading,
    tasks: Vec<String>,
    open: bool,
    sort: Option<String>,
    reverse: bool,
    output: OutputArgs,
    color: bool,
    p: Printed,
)
    requires
        call_ensures(
            dep_tree,
            (&store, &schema, &tasks, open, &sort, reverse, &output, color),
            Ok::<Printed, String>(p),
        ),
    ensures
        ({
            let w = store.config.workflow;
            let columns = node_columns(store.config.display.columns.deep_view());
            let c = tree::TreeV {
                state: read::with_computed(
                    store.shown(schema),
                    columns,
                    store.gates(),
                    store.hierarchy(),
                    w.status_field@,
                    w.done_status@,
                ),
                blockers: store.gates(),
                hierarchy: store.hierarchy(),
                status_field: w.status_field@,
                done_status: w.done_status@,
                default_blocker: tree::default_type(store.config.relationships.types@),
                sort: match sort {
                    Some(x) => x@,
                    None => store.config.display.sort@,
                },
                reverse,
                open,
                columns,
            };
            let nodes = tree::forest_of(c, tree::shown_roots(c, tasks.deep_view())).0;
            let human = output.format == OutputFormat::Human;
            &&& human && nodes.len() > 0 ==> p.out.deep_view() == seq![
                forest::forest_text(nodes, color, w.status_field@),
            ]
            &&& human && nodes.len() == 0 && open ==> p.out.deep_view() == seq!["(nothing open)"@]
            &&& human && nodes.len() == 0 && !open ==> p.out.deep_view() == seq!["(no tasks)"@]
            &&& output.format == OutputFormat::Jsonl ==> p.out.len() == nodes.len()
            &&& p.err.deep_view() == report::warning_lines(store.warned(schema))
        }),
{
    let q = choose|q: TreeQuery|
        draws(q, tasks.deep_view(), open, sort.deep_view(), reverse, store.config.display)
            && #[trigger] tree_printed(p, q, store, schema, output, color);
    assert(tree_printed(p, q, store, schema, output, color));
    assert(draws(q, tasks.deep_view(), open, sort.deep_view(), reverse, store.config.display));
    assert(p.out.deep_view().len() == p.out.len());
    let c = q.over(store, schema);
    let nodes = tree::forest_of(c, tree::shown_roots(c, tasks.deep_view())).0;
    forest::nodes_have_a_value_each(nodes);
}

/// What the dependency commands write: an event for each edge that the words name,
/// which adds it or removes it as the command says, at the given time. Removing
/// fails only on a word that names no edge.
pub proof fn dependencies_are_written(
    store: Store,
    schema: SchemaReading,
    task: String,
    words: Vec<String>,
    at: Timestamp,
    color: bool,
    added: Result<DepStep, String>,
    removed: Result<DepStep, String>,
    i: int,
)
    requires
        call_ensures(
            cmd_dep_group,
            (&store, &schema, &(DepAction::Add { task, edges: words }), at, color),
            added,
        ),
        call_ensures(
            cmd_dep_group,
            (&store, &schema, &(DepAction::Remove { task, edges: words }), at, color),
            removed,
        ),
    ensures
        ({
            let types = store.config.relationships.types@;
            let more = edges::args_edges(words.deep_view(), task@, types, false);
            let less = edges::args_edges(words.deep_view(), task@, types, true);
            &&& added is Ok ==> added->Ok_0 is Write && added->Ok_0->verb@ == "Added"@
                && added->Ok_0->task@ == task@ && added->Ok_0->events.deep_view().len()
                == more.len()
            &&& added is Ok && 0 <= i < more.len() ==> {
                let e = added->Ok_0->events.deep_view()[i];
                e.op == OpType::AddEdge && e.task_id == more[i].0 && e.timestamp == at
            }
            &&& removed is Ok ==> removed->Ok_0 is Write && removed->Ok_0->verb@ == "Removed"@
                && removed->Ok_0->task@ == task@ && removed->Ok_0->events.deep_view().len()
                == less.len()
            &&& removed is Ok && 0 <= i < less.len() ==> {
                let e = removed->Ok_0->events.deep_view()[i];
                e.op == OpType::RemoveEdge && e.task_id == less[i].0 && e.timestamp == at
            }
            &&& removed is Ok <==> forall|k: int|
                0 <= k < words.deep_view().len() ==> edges::arg_error(
                    #[trigger] words.deep_view()[k],
                    task@,
                    types,
                    true,
                ) is None
        }),
{
    edges::lemma_arg_errors(
        words.deep_view(),
        task@,
        store.config.relationships.types@,
        true,
    );
}

/// What is printed of values: a line for each, of its key, an equals sign and the
/// value. Where one cannot be shown, the first such is named instead.
pub proof fn values_are_printed_by_key(pairs: Seq<(Seq<char>, settings::TomlV)>, i: int)
    requires
        0 <= i < pairs.len(),
    ensures
        (forall|k: int| 0 <= k < pairs.len() ==> settings::shown((#[trigger] pairs[k]).1) is Some)
            ==> pair_lines(pairs) is Ok && pair_lines(pairs)->Ok_0.len() == pairs.len()
            && pair_lines(pairs)->Ok_0[i] == pairs[i].0 + " = "@ + settings::shown(pairs[i].1)->0,
        settings::shown(pairs[i].1) is None && (forall|k: int|
            0 <= k < i ==> settings::shown((#[trigger] pairs[k]).1) is Some) ==> pair_lines(pairs)
            == Err::<Seq<Seq<char>>, Seq<char>>(
            "the value of `"@ + pairs[i].0 + "` holds a date that is none"@,
        ),
{
    lemma_hidden_key(pairs, i);
}

proof fn lemma_hidden_key(pairs: Seq<(Seq<char>, settings::TomlV)>, i: int)
    requires
        0 <= i < pairs.len(),
    ensures
        (forall|k: int| 0 <= k < pairs.len() ==> settings::shown((#[trigger] pairs[k]).1) is Some)
            ==> hidden_key(pairs) is None,
        settings::shown(pairs[i].1) is None && (forall|k: int|
            0 <= k < i ==> settings::shown((#[trigger] pairs[k]).1) is Some) ==> hidden_key(pairs)
            == Some(pairs[i].0),
    decreases pairs.len(),
{
    let rest = pairs.drop_last();
    assert(pairs[pairs.len() - 1] == pairs.last());
    if rest.len() > 0 {
        let j = if i < rest.len() {
            i
        } else {
            rest.len() - 1
        };
        lemma_hidden_key(rest, j);
        assert(rest[j] == pairs[j]);
        if forall|k: int| 0 <= k < pairs.len() ==> settings::shown((#[trigger] pairs[k]).1) is Some {
            assert forall|k: int| 0 <= k < rest.len() implies settings::shown(
                (#[trigger] rest[k]).1,
            ) is Some by {
                assert(rest[k] == pairs[k]);
            }
        }
        if settings::shown(pairs[i].1) is None && (forall|k: int|
            0 <= k < i ==> settings::shown((#[trigger] pairs[k]).1) is Some) {
            assert forall|k: int| 0 <= k < j implies settings::shown((#[trigger] rest[k]).1)
                is Some by {
                assert(rest[k] == pairs[k]);
            }
            if i == rest.len() {
                assert forall|k: int| 0 <= k < rest.len() implies settings::shown(
                    (#[trigger] rest[k]).1,
                ) is Some by {
                    assert(rest[k] == pairs[k]);
                }
            }
        }
    }
}

} // verus!
