//! The guide for newcomers, written in the vocabulary of the store.

use crate::json::{self, Json, JsonV};
use crate::order;
use crate::prime::{
    self, ExamplesV, FieldFacts, FieldFactsV, PrimeExamples, PrimeFacts, PrimeFactsV,
    RelationshipFacts, RelationshipFactsV, SummaryFacts, TypeFacts, TypeFactsV,
};
use crate::report;
use crate::resolve;
use crate::strmap::{Data, StrMap};
use crate::text;
use vstd::prelude::*;

verus! {

/// A field by its name, with its values, or its kind where that is neither
/// plain text nor anything.
pub open spec fn field_text(f: FieldFactsV) -> Seq<char> {
    if f.values.len() > 0 {
        f.name + " ("@ + text::joined(f.values, " | "@) + ")"@
    } else if f.kind != "string"@ && f.kind != "any"@ {
        f.name + " ("@ + f.kind + ")"@
    } else {
        f.name
    }
}

/// A field as the guide names it.
pub fn describe_field(f: &FieldFacts) -> (r: String)
    ensures
        r@ == field_text(f.deep_view()),
{
    assert(f.values.deep_view().len() == f.values.len());
    if f.values.len() > 0 {
        text::cat2(
            text::cat3(f.name.as_str(), " (", text::join(&f.values, " | ").as_str()).as_str(),
            ")",
        )
    } else if !text::same_text(f.kind.as_str(), "string") && !text::same_text(
        f.kind.as_str(),
        "any",
    ) {
        text::cat2(text::cat3(f.name.as_str(), " (", f.kind.as_str()).as_str(), ")")
    } else {
        f.name.clone()
    }
}

/// The fields that are required, or those that are not, but for the status.
pub open spec fn field_texts(
    fields: Seq<FieldFactsV>,
    required: bool,
    status_field: Seq<char>,
) -> Seq<
    Seq<char>,
>
    decreases fields.len(),
{
    if fields.len() == 0 {
        Seq::empty()
    } else {
        let rest = field_texts(fields.drop_last(), required, status_field);
        let f = fields.last();
        if f.required == required && f.name != status_field {
            rest.push(field_text(f))
        } else {
            rest
        }
    }
}

/// A type as a line: its name, its required fields and its optional ones.
pub open spec fn type_text(t: TypeFactsV, status_field: Seq<char>) -> Seq<char> {
    let req = field_texts(t.fields, true, status_field);
    let opt = field_texts(t.fields, false, status_field);
    let parts = text::listed(req.len() > 0, "required "@ + text::joined(req, ", "@)) + text::listed(
        opt.len() > 0,
        "optional "@ + text::joined(opt, ", "@),
    );
    let body = if parts.len() == 0 {
        "no declared fields"@
    } else {
        text::joined(parts, "; "@)
    };
    let close = if t.closed { ""@ } else { " (does not close)"@ };
    "  - `"@ + t.name + "`"@ + close + ": "@ + body
}

fn texts_of(fields: &Vec<FieldFacts>, required: bool, status_field: &str) -> (r: Vec<String>)
    ensures
        r.deep_view() == field_texts(fields.deep_view(), required, status_field@),
{
    let ghost all = fields.deep_view();
    let mut out: Vec<String> = Vec::new();
    let mut i: usize = 0;
    assert(all.take(0) =~= Seq::empty());
    assert(out.deep_view() =~= Seq::empty());
    while i < fields.len()
        invariant
            i <= fields.len(),
            all == fields.deep_view(),
            out.deep_view() == field_texts(all.take(i as int), required, status_field@),
        decreases fields.len() - i,
    {
        let ghost longer = all.take(i as int + 1);
        assert(longer.drop_last() =~= all.take(i as int));
        let f = &fields[i];
        assert(longer.last() == f.deep_view());
        if f.required == required && !text::same_text(f.name.as_str(), status_field) {
            let ghost had = out.deep_view();
            let line = describe_field(f);
            out.push(line);
            assert(out.deep_view() =~= had.push(line@));
        }
        i += 1;
    }
    assert(all.take(all.len() as int) =~= all);
    out
}

/// A type as a line.
pub fn describe_type(t: &TypeFacts, status_field: &str) -> (r: String)
    ensures
        r@ == type_text(t.deep_view(), status_field@),
{
    let req = texts_of(&t.fields, true, status_field);
    let opt = texts_of(&t.fields, false, status_field);
    assert(req.deep_view().len() == req.len());
    assert(opt.deep_view().len() == opt.len());
    let mut parts = text::list_if(
        req.len() > 0,
        text::cat2("required ", text::join(&req, ", ").as_str()),
    );
    text::extend(
        &mut parts,
        text::list_if(opt.len() > 0, text::cat2("optional ", text::join(&opt, ", ").as_str())),
    );
    assert(parts.deep_view().len() == parts.len());
    let body = if parts.len() == 0 {
        String::from_str("no declared fields")
    } else {
        text::join(&parts, "; ")
    };
    let close = if t.closed { "" } else { " (does not close)" };
    text::cat6("  - `", t.name.as_str(), "`", close, ": ", body.as_str())
}

/// The width of the widest command.
pub open spec fn command_width(cmds: Seq<(Seq<char>, Seq<char>)>) -> nat
    decreases cmds.len(),
{
    if cmds.len() == 0 {
        0
    } else {
        report::larger(command_width(cmds.drop_last()), cmds.last().0.len())
    }
}

/// Commands with their notes, the notes below each other.
pub open spec fn aligned(cmds: Seq<(Seq<char>, Seq<char>)>) -> Seq<char> {
    text::joined(
        Seq::new(
            cmds.len(),
            |i: int| text::padded(cmds[i].0, command_width(cmds)) + "  # "@ + cmds[i].1,
        ),
        "\n"@,
    )
}

/// Lines up commands and their notes.
pub fn align(cmds: &Vec<(String, String)>) -> (r: String)
    ensures
        r@ == aligned(cmds.deep_view()),
{
    let ghost all = cmds.deep_view();
    let mut width: usize = 0;
    let mut i: usize = 0;
    assert(all.take(0) =~= Seq::empty());
    while i < cmds.len()
        invariant
            i <= cmds.len(),
            all == cmds.deep_view(),
            width == command_width(all.take(i as int)),
        decreases cmds.len() - i,
    {
        let ghost longer = all.take(i as int + 1);
        assert(longer.drop_last() =~= all.take(i as int));
        assert(longer.last() == cmds@[i as int].deep_view());
        let size = text::chars_of(cmds[i].0.as_str()).len();
        if size > width {
            width = size;
        }
        i += 1;
    }
    assert(all.take(all.len() as int) =~= all);
    let mut lines: Vec<String> = Vec::new();
    let mut j: usize = 0;
    while j < cmds.len()
        invariant
            j <= cmds.len(),
            all == cmds.deep_view(),
            lines@.len() == j,
            forall|k: int|
                0 <= k < j ==> (#[trigger] lines@[k])@ == text::padded(all[k].0, width as nat)
                    + "  # "@ + all[k].1,
        decreases cmds.len() - j,
    {
        assert(all[j as int] == cmds@[j as int].deep_view());
        lines.push(
            text::cat3(
                text::pad(cmds[j].0.as_str(), width).as_str(),
                "  # ",
                cmds[j].1.as_str(),
            ),
        );
        j += 1;
    }
    assert(lines.deep_view() =~= Seq::new(
        all.len(),
        |i: int| text::padded(all[i].0, command_width(all)) + "  # "@ + all[i].1,
    ));
    text::join(&lines, "\n")
}

/// The commands that read.
pub open spec fn reading(ex: ExamplesV) -> Seq<(Seq<char>, Seq<char>)> {
    seq![
        ("ta list --ready"@, "actionable now: not done, all deps done"@),
        ("ta list --open"@, "the open backlog"@),
        ("ta show <id> --full"@, "one task - every field, full notes"@),
        ("ta list "@ + ex.filter, "filter: = != =~ !~ > >= < <="@),
        ("ta dep tree"@, "dependency tree (dep plan <goal> = ordered plan)"@),
        ("ta status"@, "counts"@),
    ]
}

/// The commands that write.
pub open spec fn writing(f: PrimeFactsV, ex: ExamplesV) -> Seq<(Seq<char>, Seq<char>)> {
    seq![
        (
            "ta create <id> "@ + f.type_field + "="@ + ex.task_type + " "@ + ex.req_example,
            "file work ("@ + f.status_field + " defaults to `"@ + f.default_status + "`)"@,
        ),
        (
            "ta update <id> "@ + f.status_field + "="@ + ex.claim,
            "set a field: = replace, += append, -= remove"@,
        ),
        ("ta update <id> "@ + f.status_field + "="@ + f.done_status, "close it"@),
        ("ta dep add <id> "@ + ex.blocker + "=<other>"@, "record a prerequisite"@),
        (
            "ta update <id> notes+=\"...\""@,
            "append a note (here and on related tasks)"@,
        ),
    ]
}

fn pair(c: String, note: &str) -> (r: (String, String))
    ensures
        r.deep_view() == (c@, note@),
{
    (c, String::from_str(note))
}

/// The commands that read, lined up.
pub fn read_commands(ex: &PrimeExamples) -> (r: String)
    ensures
        r@ == aligned(reading(ex.deep_view())),
{
    let mut cmds: Vec<(String, String)> = Vec::new();
    cmds.push(
        pair(String::from_str("ta list --ready"), "actionable now: not done, all deps done"),
    );
    cmds.push(pair(String::from_str("ta list --open"), "the open backlog"));
    cmds.push(
        pair(String::from_str("ta show <id> --full"), "one task - every field, full notes"),
    );
    cmds.push(
        pair(text::cat2("ta list ", ex.filter.as_str()), "filter: = != =~ !~ > >= < <="),
    );
    cmds.push(
        pair(
            String::from_str("ta dep tree"),
            "dependency tree (dep plan <goal> = ordered plan)",
        ),
    );
    cmds.push(pair(String::from_str("ta status"), "counts"));
    assert(cmds.deep_view() =~= reading(ex.deep_view()));
    align(&cmds)
}

/// The commands that write, lined up.
pub fn write_commands(f: &PrimeFacts, ex: &PrimeExamples) -> (r: String)
    ensures
        r@ == aligned(writing(f.deep_view(), ex.deep_view())),
{
    let sf = f.status_field.as_str();
    let mut cmds: Vec<(String, String)> = Vec::new();
    let filing = text::cat5("file work (", sf, " defaults to `", f.default_status.as_str(), "`)");
    cmds.push(
        pair(
            text::cat6(
                "ta create <id> ",
                f.type_field.as_str(),
                "=",
                ex.task_type.as_str(),
                " ",
                ex.req_example.as_str(),
            ),
            filing.as_str(),
        ),
    );
    let setting = text::cat3("ta update <id> ", sf, "=");
    cmds.push(
        pair(
            text::cat2(setting.as_str(), ex.claim.as_str()),
            "set a field: = replace, += append, -= remove",
        ),
    );
    cmds.push(pair(text::cat2(setting.as_str(), f.done_status.as_str()), "close it"));
    cmds.push(
        pair(
            text::cat3("ta dep add <id> ", ex.blocker.as_str(), "=<other>"),
            "record a prerequisite",
        ),
    );
    cmds.push(
        pair(
            String::from_str("ta update <id> notes+=\"...\""),
            "append a note (here and on related tasks)",
        ),
    );
    assert(cmds.deep_view() =~= writing(f.deep_view(), ex.deep_view()));
    align(&cmds)
}

/// The line on the status field.
pub open spec fn status_line(f: PrimeFactsV) -> Seq<char> {
    if f.statuses.len() == 0 {
        "- Status field `"@ + f.status_field + "`: free-form (any value); done = `"@ + f.done_status
            + "`, create defaults to `"@ + f.default_status + "`."@
    } else {
        "- Status field `"@ + f.status_field + "`: "@ + text::joined(f.statuses, " | "@)
            + " (done = `"@ + f.done_status + "`, create defaults to `"@ + f.default_status + "`)."@
    }
}

/// The lines of the types, each after a line break.
pub open spec fn type_lines(types: Seq<TypeFactsV>, status_field: Seq<char>) -> Seq<char>
    decreases types.len(),
{
    if types.len() == 0 {
        Seq::empty()
    } else {
        type_lines(types.drop_last(), status_field) + "\n"@ + type_text(types.last(), status_field)
    }
}

/// The lines on the declared types.
pub open spec fn type_block(f: PrimeFactsV) -> Seq<char> {
    if f.task_types.len() == 0 {
        "- Types: none declared - tasks are free-form (any field name is accepted)."@
    } else {
        "- Type field `"@ + f.type_field + "=` (untyped tasks: "@ + f.untyped_tasks
            + "); declared types:"@ + type_lines(f.task_types, f.status_field)
    }
}

/// One relationship type: its kind and how it reads from its target.
pub open spec fn relationship_text(r: RelationshipFactsV) -> Seq<char> {
    "`"@ + r.name + "` ("@ + r.kind + (if r.inverse.len() == 0 {
        ", one-way"@
    } else if r.inverse == r.name {
        ", symmetric"@
    } else {
        ", inverse `"@ + r.inverse + "`"@
    }) + ")"@
}

/// The section on the schema: the status, the types, the relationships and the
/// columns.
pub open spec fn schema_text(f: PrimeFactsV) -> Seq<char> {
    status_line(f) + "\n"@ + type_block(f) + "\n- Relationships (for `ta dep`): "@ + text::joined(
        Seq::new(f.relationships.len(), |i: int| relationship_text(f.relationships[i])),
        ", "@,
    ) + ".\n- `ta list` columns (config-driven): "@ + text::joined(f.columns, ", "@) + "."@
}

fn line_of_status(f: &PrimeFacts) -> (r: String)
    ensures
        r@ == status_line(f.deep_view()),
{
    let sf = f.status_field.as_str();
    assert(f.statuses.deep_view().len() == f.statuses.len());
    if f.statuses.len() == 0 {
        text::cat7(
            "- Status field `",
            sf,
            "`: free-form (any value); done = `",
            f.done_status.as_str(),
            "`, create defaults to `",
            f.default_status.as_str(),
            "`.",
        )
    } else {
        let front = text::cat5(
            "- Status field `",
            sf,
            "`: ",
            text::join(&f.statuses, " | ").as_str(),
            " (done = `",
        );
        text::cat5(
            front.as_str(),
            f.done_status.as_str(),
            "`, create defaults to `",
            f.default_status.as_str(),
            "`).",
        )
    }
}

fn block_of_types(f: &PrimeFacts) -> (r: String)
    ensures
        r@ == type_block(f.deep_view()),
{
    let ghost all = f.task_types.deep_view();
    if f.task_types.len() == 0 {
        return String::from_str(
            "- Types: none declared - tasks are free-form (any field name is accepted).",
        );
    }
    let head = text::cat5(
        "- Type field `",
        f.type_field.as_str(),
        "=` (untyped tasks: ",
        f.untyped_tasks.as_str(),
        "); declared types:",
    );
    let mut block = String::new();
    let mut i: usize = 0;
    assert(all.take(0) =~= Seq::empty());
    assert(block@ =~= Seq::<char>::empty());
    while i < f.task_types.len()
        invariant
            i <= f.task_types.len(),
            all == f.task_types.deep_view(),
            block@ == type_lines(all.take(i as int), f.status_field@),
        decreases f.task_types.len() - i,
    {
        let ghost longer = all.take(i as int + 1);
        assert(longer.drop_last() =~= all.take(i as int));
        assert(longer.last() == f.task_types@[i as int].deep_view());
        let line = describe_type(&f.task_types[i], f.status_field.as_str());
        block = text::cat3(block.as_str(), "\n", line.as_str());
        i += 1;
    }
    assert(all.take(all.len() as int) =~= all);
    text::cat2(head.as_str(), block.as_str())
}

fn text_of_relationship(r: &RelationshipFacts) -> (t: String)
    ensures
        t@ == relationship_text(r.deep_view()),
{
    let note = if text::is_blank(r.inverse.as_str()) {
        String::from_str(", one-way")
    } else if text::same_text(r.inverse.as_str(), r.name.as_str()) {
        String::from_str(", symmetric")
    } else {
        text::cat3(", inverse `", r.inverse.as_str(), "`")
    };
    text::cat6("`", r.name.as_str(), "` (", r.kind.as_str(), note.as_str(), ")")
}

/// The section on the schema.
pub fn schema_section(f: &PrimeFacts) -> (r: String)
    ensures
        r@ == schema_text(f.deep_view()),
{
    let ghost all = f.relationships.deep_view();
    let mut rels: Vec<String> = Vec::new();
    let mut i: usize = 0;
    while i < f.relationships.len()
        invariant
            i <= f.relationships.len(),
            all == f.relationships.deep_view(),
            rels@.len() == i,
            forall|k: int| 0 <= k < i ==> (#[trigger] rels@[k])@ == relationship_text(all[k]),
        decreases f.relationships.len() - i,
    {
        assert(all[i as int] == f.relationships@[i as int].deep_view());
        rels.push(text_of_relationship(&f.relationships[i]));
        i += 1;
    }
    assert(rels.deep_view() =~= Seq::new(all.len(), |i: int| relationship_text(all[i])));
    let front = text::cat5(
        line_of_status(f).as_str(),
        "\n",
        block_of_types(f).as_str(),
        "\n- Relationships (for `ta dep`): ",
        text::join(&rels, ", ").as_str(),
    );
    text::cat2(
        text::cat3(
            front.as_str(),
            ".\n- `ta list` columns (config-driven): ",
            text::join(&f.columns, ", ").as_str(),
        ).as_str(),
        ".",
    )
}

/// The guide before the schema.
pub const INTRO: &'static str = "# taska (`ta`) - task & dependency tracker for this repo\n\nTasks live in an append-only log in `.taska/`, replayed to current state; branches reconcile automatically via a git merge driver. Drive the store ONLY through `ta` (never hand-edit `.taska/*.jsonl`), and commit the `.taska/` change in the same commit as the code it describes.\n\n## Schema (dynamic - defined by `.taska/config.toml`, not hardcoded)\nField names, statuses, types, and relationships are THIS store's config; another repo may differ, so `ta prime` each new store.\n";

/// Before the commands that read.
pub const READING: &'static str = "\n\n## Read / query\n```bash\n";

/// Between the commands that read and the advice on filing.
pub const FILING: &'static str = "\n```\n\n## Filing & tracking tasks\nFile a task for each distinct piece of work - one per feature/bug, before or as you start it. Give `notes` enough for someone else to act without you: the goal and intended approach/implementation details, any open or design questions, and the context - for long or multi-line values, read them from stdin (`notes=@-`) or a file (`notes=@FILE`) on any `ta create`/`ta update` instead of quoting on the command line (`+=` takes `@` too). Set prerequisites with `ta dep add`, and append to related tasks as things change so the trail stays current. Don't pass `";

/// After the commands that write.
pub const COMMITTING: &'static str = "\n```\n\nKeep git history coherent: the eventlog change and the code it describes belong in one commit - if the store has pending `.taska/` changes unrelated to what you're starting, commit those first.\n\n## Working a task\n1. `ta list --ready` - pick actionable work.  2. `ta update <id> ";

/// The whole guide.
pub open spec fn guide_text(f: PrimeFactsV) -> Seq<char> {
    let ex = prime::examples_of(f);
    INTRO@ + schema_text(f) + READING@ + aligned(reading(ex)) + FILING@ + f.status_field
        + "=` on create (it defaults to `"@ + f.default_status
        + "`); read full notes with `ta show <id> --full`.\n```bash\n"@ + aligned(writing(f, ex))
        + COMMITTING@ + f.status_field + "="@ + ex.claim
        + "` - claim it.  3. do it, appending notes as you go.  4. `ta update <id> "@
        + f.status_field + "="@ + f.done_status
        + "` - then commit `.taska/` with the code.  5. file the follow-ups you discover.\n\n"@
        + text::decimal(f.summary.open as nat) + " open ("@ + text::decimal(f.summary.ready as nat)
        + " ready, "@ + text::decimal(f.summary.blocked as nat) + " blocked), "@ + text::decimal(
        f.summary.closed as nat,
    ) + " closed. Re-run `ta prime` to refresh.\n"@
}

/// Writes the guide.
pub fn render_guide(f: &PrimeFacts) -> (r: String)
    ensures
        r@ == guide_text(f.deep_view()),
{
    let ex = prime::examples(f);
    let s = &f.summary;
    let sf = f.status_field.as_str();
    let schema = schema_section(f);
    let reads = read_commands(&ex);
    let writes = write_commands(f, &ex);
    let a = text::cat6(INTRO, schema.as_str(), READING, reads.as_str(), FILING, sf);
    let b = text::cat5(
        a.as_str(),
        "=` on create (it defaults to `",
        f.default_status.as_str(),
        "`); read full notes with `ta show <id> --full`.\n```bash\n",
        writes.as_str(),
    );
    let c = text::cat6(
        b.as_str(),
        COMMITTING,
        sf,
        "=",
        ex.claim.as_str(),
        "` - claim it.  3. do it, appending notes as you go.  4. `ta update <id> ",
    );
    let d = text::cat5(
        c.as_str(),
        sf,
        "=",
        f.done_status.as_str(),
        "` - then commit `.taska/` with the code.  5. file the follow-ups you discover.\n\n",
    );
    let e = text::cat5(
        d.as_str(),
        text::decimal_text(s.open as u64).as_str(),
        " open (",
        text::decimal_text(s.ready as u64).as_str(),
        " ready, ",
    );
    text::cat5(
        e.as_str(),
        text::decimal_text(s.blocked as u64).as_str(),
        " blocked), ",
        text::decimal_text(s.closed as u64).as_str(),
        " closed. Re-run `ta prime` to refresh.\n",
    )
}

/// `m` with `k` set, where there is something to set.
pub open spec fn with(m: Map<Seq<char>, JsonV>, there: bool, k: Seq<char>, v: JsonV) -> Map<
    Seq<char>,
    JsonV,
> {
    if there {
        m.insert(k, v)
    } else {
        m
    }
}

/// A declared field as an object; values, default and transitions only where
/// there are any.
pub open spec fn field_value(f: FieldFactsV) -> JsonV {
    let m = map![
        "name"@ => JsonV::Str(f.name),
        "kind"@ => JsonV::Str(f.kind),
        "required"@ => JsonV::Bool(f.required),
    ];
    let m = with(m, f.values.len() > 0, "values"@, order::text_list(f.values));
    let m = match f.default {
        Some(v) => m.insert("default"@, v),
        None => m,
    };
    json::object(
        with(m, f.transitions.dom().len() > 0, "transitions"@, order::deps_value(f.transitions)),
    )
}

/// A declared type as an object.
pub open spec fn type_value(t: TypeFactsV) -> JsonV {
    json::object(
        map![
            "name"@ => JsonV::Str(t.name),
            "closed"@ => JsonV::Bool(t.closed),
            "fields"@ => JsonV::List(Seq::new(t.fields.len(), |i: int| field_value(t.fields[i]))),
        ],
    )
}

/// A declared relationship type as an object; the inverse only if it has one.
pub open spec fn relationship_value(r: RelationshipFactsV) -> JsonV {
    let m = map!["name"@ => JsonV::Str(r.name), "kind"@ => JsonV::Str(r.kind)];
    json::object(with(m, r.inverse.len() > 0, "inverse"@, JsonV::Str(r.inverse)))
}

/// The counts as an object.
pub open spec fn summary_value(s: SummaryFacts) -> JsonV {
    json::object(
        map![
            "total"@ => report::number(s.total as u64),
            "open"@ => report::number(s.open as u64),
            "ready"@ => report::number(s.ready as u64),
            "blocked"@ => report::number(s.blocked as u64),
            "closed"@ => report::number(s.closed as u64),
        ],
    )
}

/// The facts as an object; the statuses only where some are declared.
pub open spec fn facts_value(f: PrimeFactsV) -> JsonV {
    let m = map![
        "status_field"@ => JsonV::Str(f.status_field),
        "default_status"@ => JsonV::Str(f.default_status),
        "done_status"@ => JsonV::Str(f.done_status),
        "type_field"@ => JsonV::Str(f.type_field),
        "untyped_tasks"@ => JsonV::Str(f.untyped_tasks),
        "task_types"@ => JsonV::List(
            Seq::new(f.task_types.len(), |i: int| type_value(f.task_types[i])),
        ),
        "relationships"@ => JsonV::List(
            Seq::new(f.relationships.len(), |i: int| relationship_value(f.relationships[i])),
        ),
        "columns"@ => order::text_list(f.columns),
        "summary"@ => summary_value(f.summary),
    ];
    json::object(with(m, f.statuses.len() > 0, "statuses"@, order::text_list(f.statuses)))
}

fn set_text(m: &mut StrMap<Json>, k: &str, v: &str)
    ensures
        final(m)@ == old(m)@.insert(k@, JsonV::Str(v@)),
{
    m.insert(String::from_str(k), Json::Str(String::from_str(v)));
}

fn field_json(f: &FieldFacts) -> (r: Json)
    ensures
        r@ == field_value(f.deep_view()),
{
    let mut m: StrMap<Json> = StrMap::new();
    set_text(&mut m, "name", f.name.as_str());
    set_text(&mut m, "kind", f.kind.as_str());
    m.insert(String::from_str("required"), Json::Bool(f.required));
    assert(f.values.deep_view().len() == f.values.len());
    if f.values.len() > 0 {
        m.insert(String::from_str("values"), order::text_array(&f.values));
    }
    match &f.default {
        Some(v) => m.insert(String::from_str("default"), v.copy()),
        None => {},
    }
    let n = f.transitions.len();
    proof {
        let keys = f.transitions.keys_view();
        if n > 0 {
            assert(keys.contains(keys[0]));
            assert(keys.to_set().contains(keys[0]));
            assert(f.transitions@.dom().contains(keys[0]));
        } else {
            assert(f.transitions@.dom() =~= Set::empty());
        }
    }
    if n > 0 {
        m.insert(String::from_str("transitions"), order::deps_object(&f.transitions));
    }
    json::make_object(m)
}

fn type_json(t: &TypeFacts) -> (r: Json)
    ensures
        r@ == type_value(t.deep_view()),
{
    let ghost all = t.fields.deep_view();
    let mut items: Vec<Json> = Vec::new();
    let mut i: usize = 0;
    while i < t.fields.len()
        invariant
            i <= t.fields.len(),
            all == t.fields.deep_view(),
            items@.len() == i,
            forall|k: int| 0 <= k < i ==> (#[trigger] items@[k])@ == field_value(all[k]),
        decreases t.fields.len() - i,
    {
        assert(all[i as int] == t.fields@[i as int].deep_view());
        items.push(field_json(&t.fields[i]));
        i += 1;
    }
    assert(items.deep_view() =~= Seq::new(all.len(), |i: int| field_value(all[i])));
    let mut m: StrMap<Json> = StrMap::new();
    set_text(&mut m, "name", t.name.as_str());
    m.insert(String::from_str("closed"), Json::Bool(t.closed));
    m.insert(String::from_str("fields"), json::make_list(items));
    json::make_object(m)
}

fn relationship_json(r: &RelationshipFacts) -> (v: Json)
    ensures
        v@ == relationship_value(r.deep_view()),
{
    let mut m: StrMap<Json> = StrMap::new();
    set_text(&mut m, "name", r.name.as_str());
    set_text(&mut m, "kind", r.kind.as_str());
    if !text::is_blank(r.inverse.as_str()) {
        set_text(&mut m, "inverse", r.inverse.as_str());
    }
    json::make_object(m)
}

fn summary_json(s: &SummaryFacts) -> (r: Json)
    ensures
        r@ == summary_value(*s),
{
    let mut m: StrMap<Json> = StrMap::new();
    m.insert(String::from_str("total"), json::count(s.total));
    m.insert(String::from_str("open"), json::count(s.open));
    m.insert(String::from_str("ready"), json::count(s.ready));
    m.insert(String::from_str("blocked"), json::count(s.blocked));
    m.insert(String::from_str("closed"), json::count(s.closed));
    json::make_object(m)
}

/// The facts as JSON.
pub fn facts_json(f: &PrimeFacts) -> (r: Json)
    ensures
        r@ == facts_value(f.deep_view()),
{
    let ghost types = f.task_types.deep_view();
    let mut type_items: Vec<Json> = Vec::new();
    let mut i: usize = 0;
    while i < f.task_types.len()
        invariant
            i <= f.task_types.len(),
            types == f.task_types.deep_view(),
            type_items@.len() == i,
            forall|k: int| 0 <= k < i ==> (#[trigger] type_items@[k])@ == type_value(types[k]),
        decreases f.task_types.len() - i,
    {
        assert(types[i as int] == f.task_types@[i as int].deep_view());
        type_items.push(type_json(&f.task_types[i]));
        i += 1;
    }
    assert(type_items.deep_view() =~= Seq::new(types.len(), |i: int| type_value(types[i])));
    let ghost rels = f.relationships.deep_view();
    let mut rel_items: Vec<Json> = Vec::new();
    let mut j: usize = 0;
    while j < f.relationships.len()
        invariant
            j <= f.relationships.len(),
            rels == f.relationships.deep_view(),
            rel_items@.len() == j,
            forall|k: int|
                0 <= k < j ==> (#[trigger] rel_items@[k])@ == relationship_value(rels[k]),
        decreases f.relationships.len() - j,
    {
        assert(rels[j as int] == f.relationships@[j as int].deep_view());
        rel_items.push(relationship_json(&f.relationships[j]));
        j += 1;
    }
    assert(rel_items.deep_view() =~= Seq::new(rels.len(), |i: int| relationship_value(rels[i])));
    let mut m: StrMap<Json> = StrMap::new();
    set_text(&mut m, "status_field", f.status_field.as_str());
    set_text(&mut m, "default_status", f.default_status.as_str());
    set_text(&mut m, "done_status", f.done_status.as_str());
    set_text(&mut m, "type_field", f.type_field.as_str());
    set_text(&mut m, "untyped_tasks", f.untyped_tasks.as_str());
    m.insert(String::from_str("task_types"), json::make_list(type_items));
    m.insert(String::from_str("relationships"), json::make_list(rel_items));
    m.insert(String::from_str("columns"), order::text_array(&f.columns));
    m.insert(String::from_str("summary"), summary_json(&f.summary));
    assert(f.statuses.deep_view().len() == f.statuses.len());
    if f.statuses.len() > 0 {
        m.insert(String::from_str("statuses"), order::text_array(&f.statuses));
    }
    json::make_object(m)
}

proof fn lemma_field_texts(
    fields: Seq<FieldFactsV>,
    required: bool,
    status_field: Seq<char>,
    x: Seq<char>,
)
    ensures
        field_texts(fields, required, status_field).contains(x) <==> exists|i: int|
            0 <= i < fields.len() && (#[trigger] fields[i]).required == required && fields[i].name
                != status_field && field_text(fields[i]) == x,
    decreases fields.len(),
{
    if fields.len() > 0 {
        let front = fields.drop_last();
        let rest = field_texts(front, required, status_field);
        let all = field_texts(fields, required, status_field);
        lemma_field_texts(front, required, status_field, x);
        let f = fields.last();
        if f.required == required && f.name != status_field {
            assert(all == rest.push(field_text(f)));
            assert(all[rest.len() as int] == field_text(f));
            if all.contains(x) {
                let k = choose|k: int| 0 <= k < all.len() && all[k] == x;
                if k < rest.len() {
                    assert(rest[k] == x);
                } else {
                    assert(fields[fields.len() - 1] == f);
                }
            }
            if rest.contains(x) {
                let k = choose|k: int| 0 <= k < rest.len() && rest[k] == x;
                assert(all[k] == x);
            }
        }
        if rest.contains(x) {
            let i = choose|i: int|
                0 <= i < front.len() && (#[trigger] front[i]).required == required && front[i].name
                    != status_field && field_text(front[i]) == x;
            assert(fields[i] == front[i]);
        }
        if exists|i: int|
            0 <= i < fields.len() && (#[trigger] fields[i]).required == required && fields[i].name
                != status_field && field_text(fields[i]) == x {
            let i = choose|i: int|
                0 <= i < fields.len() && (#[trigger] fields[i]).required == required
                    && fields[i].name != status_field && field_text(fields[i]) == x;
            if i < front.len() {
                assert(front[i] == fields[i]);
            }
        }
    }
}

/// A type is described by its fields but for the status: the required ones among
/// the required, the others among the optional. A field is shown with the values
/// that it may take, else with a kind that says more than that it is text.
pub proof fn fields_are_described(
    fields: Seq<FieldFactsV>,
    status_field: Seq<char>,
    f: FieldFactsV,
)
    requires
        fields.contains(f),
    ensures
        f.name != status_field ==> field_texts(fields, f.required, status_field).contains(
            field_text(f),
        ),
        f.values.len() > 0 ==> field_text(f) == f.name + " ("@ + text::joined(f.values, " | "@)
            + ")"@,
        f.values.len() == 0 && (f.kind == "string"@ || f.kind == "any"@) ==> field_text(f) == f.name,
        f.values.len() == 0 && f.kind != "string"@ && f.kind != "any"@ ==> field_text(f) == f.name
            + " ("@ + f.kind + ")"@,
        (forall|i: int|
            0 <= i < fields.len() ==> (#[trigger] fields[i]).name == status_field
                || fields[i].required) ==> field_texts(fields, false, status_field).len() == 0,
        (forall|i: int|
            0 <= i < fields.len() ==> (#[trigger] fields[i]).name == status_field
                || !fields[i].required) ==> field_texts(fields, true, status_field).len() == 0,
{
    let n = choose|n: int| 0 <= n < fields.len() && fields[n] == f;
    lemma_field_texts(fields, f.required, status_field, field_text(f));
    let opt = field_texts(fields, false, status_field);
    if opt.len() > 0 {
        lemma_field_texts(fields, false, status_field, opt[0]);
        assert(opt.contains(opt[0]));
    }
    let req = field_texts(fields, true, status_field);
    if req.len() > 0 {
        lemma_field_texts(fields, true, status_field, req[0]);
        assert(req.contains(req[0]));
    }
}

/// A relationship type is shown with its kind, and with its inverse where it has
/// one of another name; its JSON has the same.
pub proof fn relationships_are_described(r: RelationshipFactsV)
    ensures
        r.inverse.len() == 0 ==> relationship_text(r) == "`"@ + r.name + "` ("@ + r.kind
            + ", one-way"@ + ")"@,
        r.inverse.len() > 0 && r.inverse == r.name ==> relationship_text(r) == "`"@ + r.name
            + "` ("@ + r.kind + ", symmetric"@ + ")"@,
        r.inverse.len() > 0 && r.inverse != r.name ==> relationship_text(r) == "`"@ + r.name
            + "` ("@ + r.kind + (", inverse `"@ + r.inverse + "`"@) + ")"@,
        resolve::member(relationship_value(r), "name"@) == Some(JsonV::Str(r.name)),
        resolve::member(relationship_value(r), "kind"@) == Some(JsonV::Str(r.kind)),
        resolve::member(relationship_value(r), "inverse"@) == if r.inverse.len() > 0 {
            Some(JsonV::Str(r.inverse))
        } else {
            None
        },
{
    reveal_strlit("name");
    reveal_strlit("kind");
    reveal_strlit("inverse");
    assert("name"@.len() == 4 && "kind"@.len() == 4 && "inverse"@.len() == 7 && "name"@[0] == 'n'
        && "kind"@[0] == 'k');
    let m = with(
        map!["name"@ => JsonV::Str(r.name), "kind"@ => JsonV::Str(r.kind)],
        r.inverse.len() > 0,
        "inverse"@,
        JsonV::Str(r.inverse),
    );
    assert(relationship_value(r) == json::object(m));
    resolve::objects_have_their_members(m, "name"@);
    resolve::objects_have_their_members(m, "kind"@);
    resolve::objects_have_their_members(m, "inverse"@);
}

/// As JSON, a field has its name, its kind and whether it is required, and what
/// else is declared of it where anything is.
pub proof fn field_facts_have_members(f: FieldFactsV)
    requires
        f.transitions.dom().finite(),
    ensures
        ({
            let v = field_value(f);
            &&& resolve::member(v, "name"@) == Some(JsonV::Str(f.name))
            &&& resolve::member(v, "kind"@) == Some(JsonV::Str(f.kind))
            &&& resolve::member(v, "required"@) == Some(JsonV::Bool(f.required))
            &&& resolve::member(v, "values"@) == if f.values.len() > 0 {
                Some(JsonV::List(f.values.map_values(|t: Seq<char>| JsonV::Str(t))))
            } else {
                None
            }
            &&& resolve::member(v, "default"@) == f.default
            &&& resolve::member(v, "transitions"@) == if f.transitions.dom().len() > 0 {
                Some(order::deps_value(f.transitions))
            } else {
                None
            }
        }),
{
    reveal_strlit("name");
    reveal_strlit("kind");
    reveal_strlit("required");
    reveal_strlit("values");
    reveal_strlit("default");
    reveal_strlit("transitions");
    assert("name"@.len() == 4 && "kind"@.len() == 4 && "required"@.len() == 8 && "values"@.len()
        == 6 && "default"@.len() == 7 && "transitions"@.len() == 11 && "name"@[0] == 'n'
        && "kind"@[0] == 'k');
    let m = map![
        "name"@ => JsonV::Str(f.name),
        "kind"@ => JsonV::Str(f.kind),
        "required"@ => JsonV::Bool(f.required),
    ];
    let m = with(m, f.values.len() > 0, "values"@, order::text_list(f.values));
    let m = match f.default {
        Some(v) => m.insert("default"@, v),
        None => m,
    };
    let m = with(
        m,
        f.transitions.dom().len() > 0,
        "transitions"@,
        order::deps_value(f.transitions),
    );
    assert(field_value(f) == json::object(m));
    resolve::objects_have_their_members(m, "name"@);
    resolve::objects_have_their_members(m, "kind"@);
    resolve::objects_have_their_members(m, "required"@);
    resolve::objects_have_their_members(m, "values"@);
    resolve::objects_have_their_members(m, "default"@);
    resolve::objects_have_their_members(m, "transitions"@);
}

/// As JSON, the facts have a member each: the words of the workflow, the declared
/// types, relationships and columns, and the counts.
pub proof fn facts_have_members(f: PrimeFactsV, i: int)
    ensures
        ({
            let v = facts_value(f);
            let said = |k: Seq<char>| resolve::member(v, k);
            &&& said("status_field"@) == Some(JsonV::Str(f.status_field))
            &&& said("default_status"@) == Some(JsonV::Str(f.default_status))
            &&& said("done_status"@) == Some(JsonV::Str(f.done_status))
            &&& said("type_field"@) == Some(JsonV::Str(f.type_field))
            &&& said("untyped_tasks"@) == Some(JsonV::Str(f.untyped_tasks))
            &&& said("columns"@) == Some(
                JsonV::List(f.columns.map_values(|t: Seq<char>| JsonV::Str(t))),
            )
            &&& said("statuses"@) == if f.statuses.len() > 0 {
                Some(JsonV::List(f.statuses.map_values(|t: Seq<char>| JsonV::Str(t))))
            } else {
                None
            }
            &&& said("task_types"@) is Some && said("task_types"@)->0 is List
            &&& said("task_types"@)->0->List_0.len() == f.task_types.len()
            &&& 0 <= i < f.task_types.len() ==> said("task_types"@)->0->List_0[i] == type_value(
                f.task_types[i],
            )
            &&& said("relationships"@) is Some && said("relationships"@)->0 is List
            &&& said("relationships"@)->0->List_0.len() == f.relationships.len()
            &&& 0 <= i < f.relationships.len() ==> said("relationships"@)->0->List_0[i]
                == relationship_value(f.relationships[i])
            &&& said("summary"@) == Some(summary_value(f.summary))
        }),
{
    reveal_strlit("status_field");
    reveal_strlit("default_status");
    reveal_strlit("done_status");
    reveal_strlit("type_field");
    reveal_strlit("untyped_tasks");
    reveal_strlit("task_types");
    reveal_strlit("relationships");
    reveal_strlit("columns");
    reveal_strlit("summary");
    reveal_strlit("statuses");
    assert("status_field"@.len() == 12 && "default_status"@.len() == 14 && "done_status"@.len()
        == 11 && "type_field"@.len() == 10 && "untyped_tasks"@.len() == 13 && "task_types"@.len()
        == 10 && "relationships"@.len() == 13 && "columns"@.len() == 7 && "summary"@.len() == 7
        && "statuses"@.len() == 8);
    assert("type_field"@[1] == 'y' && "task_types"@[1] == 'a' && "untyped_tasks"@[0] == 'u'
        && "relationships"@[0] == 'r' && "columns"@[0] == 'c' && "summary"@[0] == 's');
    let m = map![
        "status_field"@ => JsonV::Str(f.status_field),
        "default_status"@ => JsonV::Str(f.default_status),
        "done_status"@ => JsonV::Str(f.done_status),
        "type_field"@ => JsonV::Str(f.type_field),
        "untyped_tasks"@ => JsonV::Str(f.untyped_tasks),
        "task_types"@ => JsonV::List(
            Seq::new(f.task_types.len(), |k: int| type_value(f.task_types[k])),
        ),
        "relationships"@ => JsonV::List(
            Seq::new(f.relationships.len(), |k: int| relationship_value(f.relationships[k])),
        ),
        "columns"@ => order::text_list(f.columns),
        "summary"@ => summary_value(f.summary),
    ];
    let m = with(m, f.statuses.len() > 0, "statuses"@, order::text_list(f.statuses));
    assert(facts_value(f) == json::object(m));
    resolve::objects_have_their_members(m, "status_field"@);
    resolve::objects_have_their_members(m, "default_status"@);
    resolve::objects_have_their_members(m, "done_status"@);
    resolve::objects_have_their_members(m, "type_field"@);
    resolve::objects_have_their_members(m, "untyped_tasks"@);
    resolve::objects_have_their_members(m, "task_types"@);
    resolve::objects_have_their_members(m, "relationships"@);
    resolve::objects_have_their_members(m, "columns"@);
    resolve::objects_have_their_members(m, "summary"@);
    resolve::objects_have_their_members(m, "statuses"@);
}

/// As JSON, the summary has its counts, and a type its name, whether it closes and
/// its fields.
pub proof fn types_and_counts_have_members(s: SummaryFacts, t: TypeFactsV, i: int)
    ensures
        ({
            let whole = |n: int| Some(JsonV::Num(json::NumberV::Pos(n as u64)));
            let v = summary_value(s);
            let w = type_value(t);
            &&& resolve::member(v, "total"@) == whole(s.total as int)
            &&& resolve::member(v, "open"@) == whole(s.open as int)
            &&& resolve::member(v, "ready"@) == whole(s.ready as int)
            &&& resolve::member(v, "blocked"@) == whole(s.blocked as int)
            &&& resolve::member(v, "closed"@) == whole(s.closed as int)
            &&& resolve::member(w, "name"@) == Some(JsonV::Str(t.name))
            &&& resolve::member(w, "closed"@) == Some(JsonV::Bool(t.closed))
            &&& resolve::member(w, "fields"@) is Some && resolve::member(w, "fields"@)->0 is List
            &&& resolve::member(w, "fields"@)->0->List_0.len() == t.fields.len()
            &&& 0 <= i < t.fields.len() ==> resolve::member(w, "fields"@)->0->List_0[i]
                == field_value(t.fields[i])
        }),
{
    reveal_strlit("total");
    reveal_strlit("open");
    reveal_strlit("ready");
    reveal_strlit("blocked");
    reveal_strlit("closed");
    reveal_strlit("name");
    reveal_strlit("fields");
    assert("total"@.len() == 5 && "open"@.len() == 4 && "ready"@.len() == 5 && "blocked"@.len()
        == 7 && "closed"@.len() == 6 && "name"@.len() == 4 && "fields"@.len() == 6);
    assert("total"@[0] == 't' && "ready"@[0] == 'r' && "closed"@[0] == 'c' && "fields"@[0] == 'f');
    let m = map![
        "total"@ => report::number(s.total as u64),
        "open"@ => report::number(s.open as u64),
        "ready"@ => report::number(s.ready as u64),
        "blocked"@ => report::number(s.blocked as u64),
        "closed"@ => report::number(s.closed as u64),
    ];
    assert(summary_value(s) == json::object(m));
    resolve::objects_have_their_members(m, "total"@);
    resolve::objects_have_their_members(m, "open"@);
    resolve::objects_have_their_members(m, "ready"@);
    resolve::objects_have_their_members(m, "blocked"@);
    resolve::objects_have_their_members(m, "closed"@);
    let n = map![
        "name"@ => JsonV::Str(t.name),
        "closed"@ => JsonV::Bool(t.closed),
        "fields"@ => JsonV::List(Seq::new(t.fields.len(), |k: int| field_value(t.fields[k]))),
    ];
    assert(type_value(t) == json::object(n));
    resolve::objects_have_their_members(n, "name"@);
    resolve::objects_have_their_members(n, "closed"@);
    resolve::objects_have_their_members(n, "fields"@);
}

} // verus!
