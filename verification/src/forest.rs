//! The dependency forest as text and as JSON.

use crate::display;
use crate::json::{self, Json, JsonV};
use crate::model::{ID_KEY, SUBTASKS_KEY};
use crate::report;
use crate::strmap::{self, Data, StrMap};
use crate::text;
use crate::tree::{Kids, KidsV, Node, NodeV};
use vstd::prelude::*;

verus! {

/// A column of a node is cut to this many characters.
pub const TREE_TITLE_MAX: usize = 50;

/// A value in the style of its column: dim for a done node, else cyan for the
/// id and green for the status.
pub open spec fn painted(
    s: Seq<char>,
    column: Seq<char>,
    done: bool,
    status_field: Seq<char>,
    color: bool,
) -> Seq<char> {
    if done {
        display::styled(s, "2"@, color)
    } else if column == ID_KEY@ {
        display::styled(s, "36"@, color)
    } else if column == status_field {
        display::styled(s, "32"@, color)
    } else {
        s
    }
}

/// A value in the style of its column.
pub fn paint_cell(
    text: &str,
    column: &str,
    done: bool,
    status_field: &str,
    color: bool,
) -> (r: String)
    ensures
        r@ == painted(text@, column@, done, status_field@, color),
{
    if done {
        display::sgr(text, "2", color)
    } else if text::same_text(column, ID_KEY) {
        display::sgr(text, "36", color)
    } else if text::same_text(column, status_field) {
        display::sgr(text, "32", color)
    } else {
        String::from_str(text)
    }
}

/// What leads the label of a node: a checkbox for a subtask, else the tag of
/// the edge, and a check mark for a done node.
pub open spec fn mark(edge: Option<Seq<char>>, done: bool, color: bool) -> Seq<char> {
    if edge == Some("subtask"@) {
        if done {
            display::styled("[\u{2713}] "@, "2"@, color)
        } else {
            display::styled("[ ] "@, "35"@, color)
        }
    } else {
        (match edge {
            Some(e) => display::styled("["@ + e + "] "@, "2"@, color && done),
            None => Seq::empty(),
        }) + if done {
            display::styled("\u{2713} "@, "2"@, color)
        } else {
            Seq::empty()
        }
    }
}

/// The columns of a node, each two blanks after what comes before.
pub open spec fn columns_text(
    cells: Seq<(Seq<char>, JsonV)>,
    done: bool,
    status_field: Seq<char>,
    color: bool,
) -> Seq<char>
    decreases cells.len(),
{
    if cells.len() == 0 {
        Seq::empty()
    } else {
        let (column, v) = cells.last();
        columns_text(cells.drop_last(), done, status_field, color) + "  "@ + painted(
            display::truncated(display::shown(v), TREE_TITLE_MAX as nat),
            column,
            done,
            status_field,
            color,
        )
    }
}

/// The progress of a node's subtasks.
pub open spec fn rollup_text(rollup: Option<(usize, usize)>, done: bool, color: bool) -> Seq<char> {
    match rollup {
        Some((d, t)) => display::styled(
            " [subtasks "@ + text::decimal(d as nat) + "/"@ + text::decimal(t as nat) + "]"@,
            if done {
                "2"@
            } else {
                "33"@
            },
            color,
        ),
        None => Seq::empty(),
    }
}

/// The label of a node.
pub open spec fn label(n: NodeV, color: bool, status_field: Seq<char>) -> Seq<char> {
    mark(n.edge, n.done, color) + painted(n.id, ID_KEY@, n.done, status_field, color) + columns_text(
        n.cells,
        n.done,
        status_field,
        color,
    ) + rollup_text(n.rollup, n.done, color)
}

fn mark_of(edge: &Option<String>, done: bool, color: bool) -> (r: String)
    ensures
        r@ == mark(edge.deep_view(), done, color),
{
    let subtask = match edge {
        Some(e) => text::same_text(e.as_str(), "subtask"),
        None => false,
    };
    if subtask {
        return if done {
            display::sgr("[\u{2713}] ", "2", color)
        } else {
            display::sgr("[ ] ", "35", color)
        };
    }
    let tag = match edge {
        Some(e) => display::sgr(text::cat3("[", e.as_str(), "] ").as_str(), "2", color && done),
        None => String::new(),
    };
    let check = if done { display::sgr("\u{2713} ", "2", color) } else { String::new() };
    proof {
        if edge is None {
            assert(tag@ =~= Seq::<char>::empty());
        }
        if !done {
            assert(check@ =~= Seq::<char>::empty());
        }
    }
    text::cat2(tag.as_str(), check.as_str())
}

fn columns_of(
    cells: &Vec<(String, Json)>,
    done: bool,
    status_field: &str,
    color: bool,
) -> (r: String)
    ensures
        r@ == columns_text(cells.deep_view(), done, status_field@, color),
{
    let ghost all = cells.deep_view();
    let mut out = String::new();
    let mut i: usize = 0;
    assert(all.take(0) =~= Seq::empty());
    assert(out@ =~= Seq::<char>::empty());
    while i < cells.len()
        invariant
            i <= cells.len(),
            all == cells.deep_view(),
            out@ == columns_text(all.take(i as int), done, status_field@, color),
        decreases cells.len() - i,
    {
        let ghost longer = all.take(i as int + 1);
        assert(longer.drop_last() =~= all.take(i as int));
        assert(longer.last() == (cells@[i as int].0@, cells@[i as int].1@));
        let value = display::truncate(
            display::human_display(&cells[i].1).as_str(),
            TREE_TITLE_MAX,
        );
        let cell = paint_cell(value.as_str(), cells[i].0.as_str(), done, status_field, color);
        out = text::cat3(out.as_str(), "  ", cell.as_str());
        i += 1;
    }
    assert(all.take(all.len() as int) =~= all);
    out
}

fn rollup_of(rollup: Option<(usize, usize)>, done: bool, color: bool) -> (r: String)
    ensures
        r@ == rollup_text(rollup, done, color),
{
    match rollup {
        Some((d, t)) => {
            let line = text::cat5(
                " [subtasks ",
                text::decimal_text(d as u64).as_str(),
                "/",
                text::decimal_text(t as u64).as_str(),
                "]",
            );
            display::sgr(line.as_str(), if done { "2" } else { "33" }, color)
        },
        None => {
            let r = String::new();
            assert(r@ =~= Seq::<char>::empty());
            r
        },
    }
}

/// The label of `node`.
pub fn node_label(node: &Node, color: bool, status_field: &str) -> (r: String)
    ensures
        r@ == label(node@, color, status_field@),
{
    let lead = mark_of(&node.edge, node.done, color);
    let id = paint_cell(node.id.as_str(), ID_KEY, node.done, status_field, color);
    let columns = columns_of(&node.cells, node.done, status_field, color);
    let rollup = rollup_of(node.rollup, node.done, color);
    let front = text::cat3(lead.as_str(), id.as_str(), columns.as_str());
    text::cat2(front.as_str(), rollup.as_str())
}

/// Whether a node is drawn with children.
pub open spec fn expanded(n: NodeV) -> bool {
    n.kids matches KidsV::Children(kids) && kids.len() > 0
}

/// The nodes below and at `n` from top to bottom, each with whether it is drawn
/// with children.
pub open spec fn walk(n: NodeV) -> Seq<(Seq<char>, bool)>
    decreases n, 1nat, 0nat,
{
    seq![(n.id, expanded(n))] + match n.kids {
        KidsV::Children(kids) => walk_all(kids, kids.len()),
        _ => Seq::empty(),
    }
}

/// The first `count` of `nodes` and what is below them, from top to bottom.
pub open spec fn walk_all(nodes: Seq<NodeV>, count: nat) -> Seq<(Seq<char>, bool)>
    decreases nodes, 0nat, count,
{
    if count == 0 || count > nodes.len() {
        Seq::empty()
    } else {
        walk_all(nodes, (count - 1) as nat) + walk(nodes[count - 1])
    }
}

/// The line on which `id` is drawn with children.
pub open spec fn expanded_at(lines: Seq<(Seq<char>, bool)>, id: Seq<char>) -> Option<int>
    decreases lines.len(),
{
    if lines.len() == 0 {
        None
    } else if lines.last() == (id, true) {
        Some(lines.len() - 1)
    } else {
        expanded_at(lines.drop_last(), id)
    }
}

/// What is said of a node without children of its own: why, and where it is
/// drawn in full.
pub open spec fn note(n: NodeV, here: int, at: Option<int>) -> Seq<char> {
    match n.kids {
        KidsV::Missing => " (missing)"@,
        KidsV::Cycle => " (cycle)"@,
        KidsV::Collapsed => match at {
            Some(e) => if e < here {
                " (expanded above)"@
            } else {
                " (expanded below)"@
            },
            None => " (expanded elsewhere)"@,
        },
        KidsV::Children(_) => ""@,
    }
}

/// The branch to a child.
pub open spec fn branch(last: bool) -> Seq<char> {
    if last {
        "\u{2514}\u{2500} "@
    } else {
        "\u{251c}\u{2500} "@
    }
}

/// What runs beside the lines below a child.
pub open spec fn rail(last: bool) -> Seq<char> {
    if last {
        "   "@
    } else {
        "\u{2502}  "@
    }
}

/// Children of a subtask hang under its check mark, a column to the right.
pub open spec fn anchor(edge: Option<Seq<char>>) -> Seq<char> {
    if edge == Some("subtask"@) {
        " "@
    } else {
        ""@
    }
}

/// The lines below a node that `from` lines precede.
pub open spec fn lines_below(
    n: NodeV,
    prefix: Seq<char>,
    from: int,
    all: Seq<(Seq<char>, bool)>,
    color: bool,
    status_field: Seq<char>,
) -> Seq<Seq<char>>
    decreases n, 1nat, 0nat,
{
    match n.kids {
        KidsV::Children(kids) => kid_lines(
            kids,
            kids.len(),
            prefix + anchor(n.edge),
            from,
            all,
            color,
            status_field,
        ),
        _ => Seq::empty(),
    }
}

/// The lines of the first `count` children.
pub open spec fn kid_lines(
    kids: Seq<NodeV>,
    count: nat,
    lead: Seq<char>,
    from: int,
    all: Seq<(Seq<char>, bool)>,
    color: bool,
    status_field: Seq<char>,
) -> Seq<Seq<char>>
    decreases kids, 0nat, count,
{
    if count == 0 || count > kids.len() {
        Seq::empty()
    } else {
        let above = kid_lines(kids, (count - 1) as nat, lead, from, all, color, status_field);
        let kid = kids[count - 1];
        let last = count == kids.len();
        let here = from + above.len();
        above.push(
            lead + branch(last) + label(kid, color, status_field) + note(
                kid,
                here,
                expanded_at(all, kid.id),
            ),
        ) + lines_below(kid, lead + rail(last), here + 1, all, color, status_field)
    }
}

/// The lines of the first `count` trees of a forest.
pub open spec fn forest_lines(
    nodes: Seq<NodeV>,
    count: nat,
    all: Seq<(Seq<char>, bool)>,
    color: bool,
    status_field: Seq<char>,
) -> Seq<Seq<char>>
    decreases count,
{
    if count == 0 || count > nodes.len() {
        Seq::empty()
    } else {
        let above = forest_lines(nodes, (count - 1) as nat, all, color, status_field);
        let node = nodes[count - 1];
        above.push(label(node, color, status_field)) + lines_below(
            node,
            ""@,
            above.len() as int + 1,
            all,
            color,
            status_field,
        )
    }
}

/// `s` without the newlines at its end.
pub open spec fn unended(s: Seq<char>) -> Seq<char>
    decreases s.len(),
{
    if s.len() > 0 && s.last() == '\n' {
        unended(s.drop_last())
    } else {
        s
    }
}

/// The forest as text.
pub open spec fn forest_text(nodes: Seq<NodeV>, color: bool, status_field: Seq<char>) -> Seq<char> {
    unended(
        text::joined(
            forest_lines(
                nodes,
                nodes.len(),
                walk_all(nodes, nodes.len()),
                color,
                status_field,
            ),
            "\n"@,
        ),
    )
}

/// Lists `nodes` and what is below them, from top to bottom.
fn index_expanded(nodes: &Vec<Node>, out: &mut Vec<(String, bool)>)
    ensures
        final(out).deep_view() == old(out).deep_view() + walk_all(
            nodes.deep_view(),
            nodes.deep_view().len(),
        ),
    decreases nodes.deep_view(), 0nat,
{
    let ghost all = nodes.deep_view();
    let ghost before = out.deep_view();
    let mut i: usize = 0;
    assert(out.deep_view() =~= before + walk_all(all, 0));
    while i < nodes.len()
        invariant
            i <= nodes.len(),
            all == nodes.deep_view(),
            out.deep_view() == before + walk_all(all, i as nat),
        decreases nodes.len() - i,
    {
        let node = &nodes[i];
        let ghost had = out.deep_view();
        assert(all[i as int] == node@);
        assert(decreases_to!(all => all[i as int]));
        index_node(node, out);
        assert(had + walk(node@) =~= before + (walk_all(all, i as nat) + walk(all[i as int])));
        i += 1;
    }
}

fn index_node(node: &Node, out: &mut Vec<(String, bool)>)
    ensures
        final(out).deep_view() == old(out).deep_view() + walk(node@),
    decreases node@, 1nat,
{
    let ghost had = out.deep_view();
    match &node.kids {
        Kids::Children(kids) => {
            assert(node@.kids->Children_0 =~= kids.deep_view());
            out.push((node.id.clone(), kids.len() > 0));
            assert(out.deep_view() =~= had.push((node.id@, expanded(node@))));
            assert(decreases_to!(node@ => node@.kids));
            assert(decreases_to!(node@.kids => node@.kids->Children_0));
            index_expanded(kids, out);
            assert(out.deep_view() =~= had + walk(node@));
        },
        _ => {
            out.push((node.id.clone(), false));
            assert(out.deep_view() =~= had.push((node.id@, expanded(node@))));
            assert(out.deep_view() =~= had + walk(node@));
        },
    }
}

fn place_of(lines: &Vec<(String, bool)>, id: &str) -> (r: Option<usize>)
    ensures
        match r {
            Some(n) => expanded_at(lines.deep_view(), id@) == Some(n as int),
            None => expanded_at(lines.deep_view(), id@) is None,
        },
{
    let ghost all = lines.deep_view();
    let mut i: usize = lines.len();
    assert(all.take(all.len() as int) =~= all);
    while i > 0
        invariant
            i <= lines.len(),
            all == lines.deep_view(),
            expanded_at(all, id@) == expanded_at(all.take(i as int), id@),
        decreases i,
    {
        let ghost rest = all.take(i as int);
        i -= 1;
        assert(rest.drop_last() =~= all.take(i as int));
        assert(rest.last() == (lines@[i as int].0@, lines@[i as int].1));
        if lines[i].1 && text::same_text(lines[i].0.as_str(), id) {
            return Some(i);
        }
    }
    None
}

fn note_of(node: &Node, here: usize, all: &Vec<(String, bool)>) -> (r: &'static str)
    ensures
        r@ == note(node@, here as int, expanded_at(all.deep_view(), node@.id)),
{
    match &node.kids {
        Kids::Missing => " (missing)",
        Kids::Cycle => " (cycle)",
        Kids::Collapsed => match place_of(all, node.id.as_str()) {
            Some(e) => if e < here {
                " (expanded above)"
            } else {
                " (expanded below)"
            },
            None => " (expanded elsewhere)",
        },
        Kids::Children(_) => "",
    }
}

/// Adds the lines below `node` to `lines`.
fn push_kids(
    node: &Node,
    prefix: &str,
    lines: &mut Vec<String>,
    all: &Vec<(String, bool)>,
    color: bool,
    status_field: &str,
)
    ensures
        final(lines).deep_view() == old(lines).deep_view() + lines_below(
            node@,
            prefix@,
            old(lines).deep_view().len() as int,
            all.deep_view(),
            color,
            status_field@,
        ),
    decreases node@,
{
    let ghost before = lines.deep_view();
    let ghost from = before.len() as int;
    let ghost walked = all.deep_view();
    match &node.kids {
        Kids::Children(kids) => {
            let ghost nodes = kids.deep_view();
            assert(node@.kids->Children_0 =~= nodes);
            let subtask = match &node.edge {
                Some(e) => text::same_text(e.as_str(), "subtask"),
                None => false,
            };
            let lead = text::cat2(prefix, if subtask { " " } else { "" });
            let n = kids.len();
            let mut i: usize = 0;
            assert(lines.deep_view() =~= before + kid_lines(
                nodes,
                0,
                lead@,
                from,
                walked,
                color,
                status_field@,
            ));
            while i < n
                invariant
                    i <= n,
                    n == kids.len(),
                    node.kids == Kids::Children(*kids),
                    nodes == kids.deep_view(),
                    node@.kids == KidsV::Children(nodes),
                    walked == all.deep_view(),
                    from == before.len(),
                    lines.deep_view() == before + kid_lines(
                        nodes,
                        i as nat,
                        lead@,
                        from,
                        walked,
                        color,
                        status_field@,
                    ),
                decreases n - i,
            {
                let kid = &kids[i];
                let last = i + 1 == n;
                let here = lines.len();
                let ghost above = kid_lines(
                    nodes,
                    i as nat,
                    lead@,
                    from,
                    walked,
                    color,
                    status_field@,
                );
                let ghost had = lines.deep_view();
                assert(had.len() == here);
                assert(nodes[i as int] == kid@);
                let name = node_label(kid, color, status_field);
                let fork = if last { "\u{2514}\u{2500} " } else { "\u{251c}\u{2500} " };
                let stem = text::cat3(lead.as_str(), fork, name.as_str());
                let row = text::cat2(stem.as_str(), note_of(kid, here, all));
                lines.push(row);
                assert(lines.deep_view() =~= had.push(row@));
                let side = if last { "   " } else { "\u{2502}  " };
                let inner = text::cat2(lead.as_str(), side);
                proof {
                    assert(decreases_to!(node@ => node@.kids));
                    assert(decreases_to!(node@.kids => node@.kids->Children_0));
                    assert(decreases_to!(nodes => nodes[i as int]));
                }
                push_kids(kid, inner.as_str(), lines, all, color, status_field);
                proof {
                    let below = lines_below(
                        kid@,
                        inner@,
                        here as int + 1,
                        walked,
                        color,
                        status_field@,
                    );
                    assert(lines.deep_view() == had.push(row@) + below);
                    assert(had.push(row@) + below =~= before + (above.push(row@) + below));
                }
                i += 1;
            }
        },
        _ => {
            assert(lines.deep_view() =~= before + Seq::<Seq<char>>::empty());
        },
    }
}

fn strip_newlines(s: &str) -> (r: String)
    ensures
        r@ == unended(s@),
{
    let v = text::chars_of(s);
    let mut n: usize = v.len();
    assert(v@.take(v@.len() as int) =~= v@);
    while n > 0 && v[n - 1] == '\n'
        invariant
            n <= v.len(),
            unended(v@) == unended(v@.take(n as int)),
        decreases n,
    {
        assert(v@.take(n as int).drop_last() =~= v@.take(n - 1));
        n -= 1;
    }
    assert(v@.subrange(0, n as int) =~= v@.take(n as int));
    text::text_of(&v, 0, n)
}

/// The forest drawn with branches, children under what waits for them.
pub fn render_human_forest(forest: &Vec<Node>, color: bool, status_field: &str) -> (r: String)
    ensures
        r@ == forest_text(forest.deep_view(), color, status_field@),
{
    let ghost nodes = forest.deep_view();
    let mut all: Vec<(String, bool)> = Vec::new();
    assert(all.deep_view() =~= Seq::empty());
    index_expanded(forest, &mut all);
    let ghost walked = walk_all(nodes, nodes.len());
    assert(all.deep_view() =~= walked);
    let mut lines: Vec<String> = Vec::new();
    let mut i: usize = 0;
    assert(lines.deep_view() =~= Seq::empty());
    while i < forest.len()
        invariant
            i <= forest.len(),
            nodes == forest.deep_view(),
            walked == all.deep_view(),
            lines.deep_view() == forest_lines(nodes, i as nat, walked, color, status_field@),
        decreases forest.len() - i,
    {
        let ghost had = lines.deep_view();
        assert(nodes[i as int] == forest@[i as int]@);
        let name = node_label(&forest[i], color, status_field);
        lines.push(name);
        assert(lines.deep_view() =~= had.push(name@));
        push_kids(&forest[i], "", &mut lines, &all, color, status_field);
        i += 1;
    }
    strip_newlines(text::join(&lines, "\n").as_str())
}

/// The columns of a node as fields of an object.
pub open spec fn with_cells(m: Map<Seq<char>, JsonV>, cells: Seq<(Seq<char>, JsonV)>) -> Map<
    Seq<char>,
    JsonV,
>
    decreases cells.len(),
{
    if cells.len() == 0 {
        m
    } else {
        with_cells(m, cells.drop_last()).insert(cells.last().0, cells.last().1)
    }
}

/// The fields of a node besides its children.
pub open spec fn node_fields(n: NodeV) -> Map<Seq<char>, JsonV> {
    let named = with_cells(map![ID_KEY@ => JsonV::Str(n.id)], n.cells).insert(
        "done"@,
        JsonV::Bool(n.done),
    );
    let tied = match n.edge {
        Some(e) => named.insert("edge"@, JsonV::Str(e)),
        None => named,
    };
    match n.rollup {
        Some((d, t)) => tied.insert(
            SUBTASKS_KEY@,
            json::object(
                map!["done"@ => report::number(d as u64), "total"@ => report::number(t as u64)],
            ),
        ),
        None => tied,
    }
}

/// A node as an object, its children in a list.
pub open spec fn node_value(n: NodeV) -> JsonV
    decreases n, 1nat, 0nat,
{
    let fields = node_fields(n);
    json::object(
        match n.kids {
            KidsV::Children(kids) => if kids.len() > 0 {
                fields.insert("children"@, JsonV::List(node_values(kids, kids.len())))
            } else {
                fields
            },
            KidsV::Cycle => fields.insert("cycle"@, JsonV::Bool(true)),
            KidsV::Collapsed => fields.insert("collapsed"@, JsonV::Bool(true)),
            KidsV::Missing => fields.insert("missing"@, JsonV::Bool(true)),
        },
    )
}

/// The first `count` nodes as objects.
pub open spec fn node_values(nodes: Seq<NodeV>, count: nat) -> Seq<JsonV>
    decreases nodes, 0nat, count,
{
    if count == 0 || count > nodes.len() {
        Seq::empty()
    } else {
        node_values(nodes, (count - 1) as nat).push(node_value(nodes[count - 1]))
    }
}

fn fields_of(node: &Node) -> (r: StrMap<Json>)
    ensures
        r@ == node_fields(node@),
{
    let mut m: StrMap<Json> = StrMap::new();
    m.insert(String::from_str(ID_KEY), Json::Str(node.id.clone()));
    let ghost start = map![ID_KEY@ => JsonV::Str(node.id@)];
    assert(m@ =~= start);
    let ghost cells = node.cells.deep_view();
    let mut i: usize = 0;
    assert(cells.take(0) =~= Seq::empty());
    while i < node.cells.len()
        invariant
            i <= node.cells.len(),
            cells == node.cells.deep_view(),
            m@ == with_cells(start, cells.take(i as int)),
        decreases node.cells.len() - i,
    {
        let ghost longer = cells.take(i as int + 1);
        assert(longer.drop_last() =~= cells.take(i as int));
        assert(longer.last() == (node.cells@[i as int].0@, node.cells@[i as int].1@));
        m.insert(node.cells[i].0.clone(), node.cells[i].1.copy());
        i += 1;
    }
    assert(cells.take(cells.len() as int) =~= cells);
    m.insert(String::from_str("done"), Json::Bool(node.done));
    match &node.edge {
        Some(e) => m.insert(String::from_str("edge"), Json::Str(e.clone())),
        None => {},
    }
    match node.rollup {
        Some((d, t)) => {
            let mut o: StrMap<Json> = StrMap::new();
            o.insert(String::from_str("done"), json::count(d));
            o.insert(String::from_str("total"), json::count(t));
            m.insert(String::from_str(SUBTASKS_KEY), json::make_object(o));
        },
        None => {},
    }
    m
}

/// A node as an object.
pub fn node_json(node: &Node) -> (r: Json)
    ensures
        r@ == node_value(node@),
    decreases node@, 1nat,
{
    let mut m = fields_of(node);
    match &node.kids {
        Kids::Children(kids) => {
            assert(node@.kids->Children_0 =~= kids.deep_view());
            if kids.len() > 0 {
                proof {
                    assert(decreases_to!(node@ => node@.kids));
                    assert(decreases_to!(node@.kids => node@.kids->Children_0));
                }
                m.insert(String::from_str("children"), forest_json(kids));
            }
        },
        Kids::Cycle => m.insert(String::from_str("cycle"), Json::Bool(true)),
        Kids::Collapsed => m.insert(String::from_str("collapsed"), Json::Bool(true)),
        Kids::Missing => m.insert(String::from_str("missing"), Json::Bool(true)),
    }
    json::make_object(m)
}

/// The forest as a list of objects.
pub fn forest_json(forest: &Vec<Node>) -> (r: Json)
    ensures
        r@ == JsonV::List(node_values(forest.deep_view(), forest.deep_view().len())),
    decreases forest.deep_view(), 0nat,
{
    let ghost nodes = forest.deep_view();
    let mut items: Vec<Json> = Vec::new();
    let mut i: usize = 0;
    assert(items.deep_view() =~= Seq::empty());
    while i < forest.len()
        invariant
            i <= forest.len(),
            nodes == forest.deep_view(),
            items.deep_view() == node_values(nodes, i as nat),
        decreases forest.len() - i,
    {
        let ghost had = items.deep_view();
        assert(nodes[i as int] == forest@[i as int]@);
        assert(decreases_to!(nodes => nodes[i as int]));
        let item = node_json(&forest[i]);
        items.push(item);
        assert(items.deep_view() =~= had.push(item@));
        i += 1;
    }
    json::make_list(items)
}

proof fn lemma_walked(nodes: Seq<NodeV>, count: nat)
    requires
        count <= nodes.len(),
    ensures
        node_values(nodes, count).len() == count,
        forall|i: int|
            0 <= i < count ==> #[trigger] node_values(nodes, count)[i] == node_value(nodes[i]),
    decreases count,
{
    if count > 0 {
        lemma_walked(nodes, (count - 1) as nat);
        let few = node_values(nodes, (count - 1) as nat);
        assert(node_values(nodes, count) == few.push(node_value(nodes[count - 1])));
    }
}

/// The JSON of a node: its id and whether it is done; the edge to it and the
/// progress of its subtasks, where it has one; a member for each of its columns;
/// and one of its children, in order, or why there are none.
pub proof fn objects_hold_the_node(n: NodeV, i: int)
    requires
        forall|k: int|
            0 <= k < n.cells.len() ==> (#[trigger] n.cells[k]).0 != "id"@ && n.cells[k].0 != "done"@
                && n.cells[k].0 != "edge"@ && n.cells[k].0 != "subtasks"@,
    ensures
        ({
            let m = node_fields(n);
            &&& m.contains_key("id"@) && m["id"@] == JsonV::Str(n.id)
            &&& m.contains_key("done"@) && m["done"@] == JsonV::Bool(n.done)
            &&& m.contains_key("edge"@) <==> n.edge is Some
            &&& n.edge is Some ==> m["edge"@] == JsonV::Str(n.edge->0)
            &&& m.contains_key("subtasks"@) <==> n.rollup is Some
            &&& 0 <= i < n.cells.len() && (forall|k: int|
                i < k < n.cells.len() ==> (#[trigger] n.cells[k]).0 != n.cells[i].0)
                ==> m.contains_key(n.cells[i].0) && m[n.cells[i].0] == n.cells[i].1
        }),
        n.kids matches KidsV::Children(kids) ==> kids.len() > 0 ==> node_value(n) == json::object(
            node_fields(n).insert(
                "children"@,
                JsonV::List(Seq::new(kids.len(), |i: int| node_value(kids[i]))),
            ),
        ),
        n.kids is Cycle ==> node_value(n) == json::object(
            node_fields(n).insert("cycle"@, JsonV::Bool(true)),
        ),
        n.kids is Collapsed ==> node_value(n) == json::object(
            node_fields(n).insert("collapsed"@, JsonV::Bool(true)),
        ),
        n.kids is Missing ==> node_value(n) == json::object(
            node_fields(n).insert("missing"@, JsonV::Bool(true)),
        ),
{
    reveal_strlit("id");
    reveal_strlit("done");
    reveal_strlit("edge");
    reveal_strlit("subtasks");
    assert("id"@.len() == 2 && "done"@.len() == 4 && "edge"@.len() == 4 && "subtasks"@.len() == 8);
    assert("done"@[0] == 'd' && "edge"@[0] == 'e');
    lemma_with_cells(map![ID_KEY@ => JsonV::Str(n.id)], n.cells, i);
    lemma_cells_leave(map![ID_KEY@ => JsonV::Str(n.id)], n.cells, "id"@);
    lemma_cells_leave(map![ID_KEY@ => JsonV::Str(n.id)], n.cells, "edge"@);
    lemma_cells_leave(map![ID_KEY@ => JsonV::Str(n.id)], n.cells, "subtasks"@);
    if let KidsV::Children(kids) = n.kids {
        lemma_walked(kids, kids.len());
        assert(node_values(kids, kids.len()) =~= Seq::new(
            kids.len(),
            |i: int| node_value(kids[i]),
        ));
    }
}

proof fn lemma_with_cells(m: Map<Seq<char>, JsonV>, cells: Seq<(Seq<char>, JsonV)>, i: int)
    ensures
        0 <= i < cells.len() && (forall|k: int|
            i < k < cells.len() ==> (#[trigger] cells[k]).0 != cells[i].0) ==> with_cells(
            m,
            cells,
        ).contains_key(cells[i].0) && with_cells(m, cells)[cells[i].0] == cells[i].1,
    decreases cells.len(),
{
    if 0 <= i < cells.len() && (forall|k: int|
        i < k < cells.len() ==> (#[trigger] cells[k]).0 != cells[i].0) {
        let rest = cells.drop_last();
        if i < rest.len() {
            assert forall|k: int| i < k < rest.len() implies (#[trigger] rest[k]).0
                != rest[i].0 by {
                assert(cells[k].0 != cells[i].0);
            }
            lemma_with_cells(m, rest, i);
            assert(cells[cells.len() - 1].0 != cells[i].0);
        }
    }
}

proof fn lemma_cells_leave(
    m: Map<Seq<char>, JsonV>,
    cells: Seq<(Seq<char>, JsonV)>,
    key: Seq<char>,
)
    requires
        forall|k: int| 0 <= k < cells.len() ==> (#[trigger] cells[k]).0 != key,
    ensures
        with_cells(m, cells).contains_key(key) <==> m.contains_key(key),
        m.contains_key(key) ==> with_cells(m, cells)[key] == m[key],
    decreases cells.len(),
{
    if cells.len() > 0 {
        let rest = cells.drop_last();
        assert forall|k: int| 0 <= k < rest.len() implies (#[trigger] rest[k]).0 != key by {
            assert(cells[k].0 != key);
        }
        lemma_cells_leave(m, rest, key);
        assert(cells[cells.len() - 1].0 != key);
    }
}

/// A forest is drawn with one line for each of its nodes, and the line of a node
/// tells why nothing stands below it, if that has a reason.
pub proof fn nodes_have_a_line_each(
    n: NodeV,
    prefix: Seq<char>,
    from: int,
    all: Seq<(Seq<char>, bool)>,
    color: bool,
    status_field: Seq<char>,
)
    ensures
        lines_below(n, prefix, from, all, color, status_field).len() + 1 == walk(n).len(),
    decreases n, 1nat, 0nat,
{
    match n.kids {
        KidsV::Children(kids) => {
            assert(decreases_to!(n => n.kids));
            assert(decreases_to!(n.kids => kids));
            lemma_kid_lines(
                kids,
                kids.len(),
                prefix + anchor(n.edge),
                from,
                all,
                color,
                status_field,
            );
        },
        _ => {},
    }
}

proof fn lemma_kid_lines(
    kids: Seq<NodeV>,
    count: nat,
    lead: Seq<char>,
    from: int,
    all: Seq<(Seq<char>, bool)>,
    color: bool,
    status_field: Seq<char>,
)
    ensures
        kid_lines(kids, count, lead, from, all, color, status_field).len() == walk_all(
            kids,
            count,
        ).len(),
    decreases kids, 0nat, count,
{
    if count > 0 && count <= kids.len() {
        lemma_kid_lines(kids, (count - 1) as nat, lead, from, all, color, status_field);
        let above = kid_lines(kids, (count - 1) as nat, lead, from, all, color, status_field);
        let kid = kids[count - 1];
        nodes_have_a_line_each(
            kid,
            lead + rail(count == kids.len()),
            from + above.len() + 1,
            all,
            color,
            status_field,
        );
    }
}

proof fn lemma_expanded_at(lines: Seq<(Seq<char>, bool)>, id: Seq<char>)
    ensures
        match expanded_at(lines, id) {
            Some(n) => 0 <= n < lines.len() && lines[n] == (id, true) && forall|i: int|
                n < i < lines.len() ==> #[trigger] lines[i] != (id, true),
            None => !lines.contains((id, true)),
        },
    decreases lines.len(),
{
    if lines.len() > 0 {
        let rest = lines.drop_last();
        lemma_expanded_at(rest, id);
        strmap::lemma_contains_last(lines, (id, true));
        if lines.last() != (id, true) && expanded_at(rest, id) is Some {
            let n = expanded_at(rest, id)->0;
            assert forall|i: int| n < i < lines.len() implies #[trigger] lines[i] != (id, true) by {
                if i < rest.len() {
                    assert(rest[i] == lines[i]);
                }
            }
        }
    }
}

/// The note at a collapsed node leads to where its task is unfolded: above where
/// the last line that unfolds it comes before, below where it comes after.
pub proof fn notes_lead_to_the_unfolded(
    n: NodeV,
    here: int,
    lines: Seq<(Seq<char>, bool)>,
    at: int,
)
    requires
        n.kids is Collapsed,
        0 <= at < lines.len(),
        lines[at] == (n.id, true),
        forall|i: int| 0 <= i < lines.len() && i != at ==> #[trigger] lines[i] != (n.id, true),
    ensures
        at < here ==> note(n, here, expanded_at(lines, n.id)) == " (expanded above)"@,
        at >= here ==> note(n, here, expanded_at(lines, n.id)) == " (expanded below)"@,
{
    lemma_expanded_at(lines, n.id);
    assert(lines.contains(lines[at]));
}

/// The line of a node, without colors: a box for a subtask, checked where it is
/// done; the type of another edge in brackets; a check mark before a done task;
/// its id; its cells; and the progress of its subtasks, if it has any.
pub proof fn lines_show_the_node(n: NodeV, status_field: Seq<char>)
    ensures
        ({
            let line = label(n, false, status_field);
            let tail = columns_text(n.cells, n.done, status_field, false) + rollup_text(
                n.rollup,
                n.done,
                false,
            );
            let nested = n.edge == Some("subtask"@);
            &&& nested && !n.done ==> line == "[ ] "@ + n.id + tail
            &&& nested && n.done ==> line == "[\u{2713}] "@ + n.id + tail
            &&& n.edge is None && !n.done ==> line == n.id + tail
            &&& n.edge is None && n.done ==> line == "\u{2713} "@ + n.id + tail
            &&& n.edge is Some && !nested && !n.done ==> line == "["@ + n.edge->0 + "] "@ + n.id + tail
            &&& n.rollup is None ==> rollup_text(n.rollup, n.done, false).len() == 0
            &&& n.rollup matches Some((d, t)) ==> rollup_text(n.rollup, n.done, false)
                == " [subtasks "@ + text::decimal(d as nat) + "/"@ + text::decimal(t as nat) + "]"@
            &&& n.cells.len() == 0 ==> columns_text(n.cells, n.done, status_field, false).len() == 0
        }),
{
    let line = label(n, false, status_field);
    let tail = columns_text(n.cells, n.done, status_field, false) + rollup_text(
        n.rollup,
        n.done,
        false,
    );
    let lead = mark(n.edge, n.done, false);
    assert(line =~= lead + n.id + tail);
    if n.edge is None {
        assert(lead =~= if n.done {
            "\u{2713} "@
        } else {
            Seq::empty()
        });
        assert(!n.done ==> line =~= n.id + tail);
    } else if n.edge != Some("subtask"@) && !n.done {
        assert(lead =~= "["@ + n.edge->0 + "] "@);
    }
}

/// A forest has a value for each of its roots, in order.
pub proof fn nodes_have_a_value_each(nodes: Seq<NodeV>)
    ensures
        node_values(nodes, nodes.len()) == nodes.map_values(|n: NodeV| node_value(n)),
{
    lemma_walked(nodes, nodes.len());
    assert(node_values(nodes, nodes.len()) =~= nodes.map_values(|n: NodeV| node_value(n)));
}

} // verus!
