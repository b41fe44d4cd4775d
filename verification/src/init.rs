//! Setting up a store: the guidance block in the files that agents read.

use crate::guide;
use crate::text;
use std::collections::hash_map::DefaultHasher;
use std::hash::Hasher;
use vstd::prelude::*;
use vstd::std_specs::hash::DefaultHasherAdditionalSpecFns;

verus! {

/// Whether a store was found, or made, and where.
pub enum StoreInit {
    Reused(String),
    Created(String),
}

/// What happened to one agent file.
#[derive(Clone, Copy, Debug, PartialEq, Eq, Structural)]
pub enum AgentFileStatus {
    /// It was not there before.
    Created,
    /// The block was put in or renewed.
    Updated,
    /// It held this block already.
    Unchanged,
}

/// One agent file and what happened to it.
pub struct AgentFile {
    pub path: String,
    pub status: AgentFileStatus,
}

/// What setting up did.
pub struct InitOutcome {
    pub store: StoreInit,
    pub agent_files: Vec<AgentFile>,
}

/// What the first line of a block starts with.
pub const BLOCK_BEGIN: &'static str = "<!-- BEGIN TASKA INTEGRATION";

/// The last line of a block.
pub const BLOCK_END: &'static str = "<!-- END TASKA INTEGRATION -->";

/// The version of the guidance, as it stands in the first line.
pub const BLOCK_VERSION: u64 = 5;

/// The names of those that are there.
pub open spec fn there(names: Seq<Seq<char>>, present: Seq<bool>) -> Seq<Seq<char>>
    decreases names.len(),
{
    if names.len() == 0 {
        Seq::empty()
    } else {
        let rest = there(names.drop_last(), present);
        if present[names.len() - 1] {
            rest.push(names.last())
        } else {
            rest
        }
    }
}

/// The files to bring up to date: those that are there, else the first.
pub open spec fn targets_of(names: Seq<Seq<char>>, present: Seq<bool>) -> Seq<Seq<char>> {
    if there(names, present).len() > 0 {
        there(names, present)
    } else {
        names.take(1)
    }
}

/// The files to bring up to date, of all that agents may read, given which are
/// there.
pub fn agent_targets(names: &Vec<String>, present: &Vec<bool>) -> (r: Vec<String>)
    requires
        present.len() == names.len(),
        names.len() > 0,
    ensures
        r.deep_view() == targets_of(names.deep_view(), present@),
{
    let ghost all = names.deep_view();
    let mut out: Vec<String> = Vec::new();
    let mut i: usize = 0;
    assert(all.take(0) =~= Seq::empty());
    assert(out.deep_view() =~= Seq::empty());
    while i < names.len()
        invariant
            i <= names.len(),
            present.len() == names.len(),
            all == names.deep_view(),
            out.deep_view() == there(all.take(i as int), present@),
        decreases names.len() - i,
    {
        let ghost longer = all.take(i as int + 1);
        assert(longer.drop_last() =~= all.take(i as int));
        assert(longer.last() == names@[i as int]@);
        if present[i] {
            let ghost had = out.deep_view();
            out.push(names[i].clone());
            assert(out.deep_view() =~= had.push(names@[i as int]@));
        }
        i += 1;
    }
    assert(all.take(all.len() as int) =~= all);
    assert(out.deep_view().len() == out.len());
    if out.len() == 0 {
        out.push(names[0].clone());
        assert(out.deep_view() =~= all.take(1));
    }
    out
}

/// The place of the block in a file: from the first start marker to the end of
/// the first end marker after it.
pub open spec fn block_place(existing: Seq<char>) -> Option<(int, int)> {
    match text::found(existing, BLOCK_BEGIN@) {
        Some(start) => match text::found(existing.skip(start), BLOCK_END@) {
            Some(off) => Some((start, start + off + BLOCK_END@.len())),
            None => None,
        },
        None => None,
    }
}

/// `s` with a newline at its end.
pub open spec fn ended(s: Seq<char>) -> Seq<char> {
    if s.len() > 0 && s.last() == '\n' {
        s
    } else {
        s.push('\n')
    }
}

/// A file with the block: in the place of the old one, or after everything
/// else; nothing where the block is there already.
pub open spec fn spliced(existing: Seq<char>, block: Seq<char>) -> Option<Seq<char>> {
    match block_place(existing) {
        Some((start, end)) => if existing.subrange(start, end) == block {
            None
        } else {
            Some(ended(existing.take(start) + block + existing.skip(end)))
        },
        None => {
            let before = text::trimmed_end(existing);
            Some((if before.len() > 0 { before + "\n\n"@ } else { before }) + block + "\n"@)
        },
    }
}

proof fn lemma_begin()
    ensures
        BLOCK_BEGIN@.len() > 0,
        BLOCK_BEGIN@[0] == '<',
        forall|k: int| 0 < k < BLOCK_BEGIN@.len() ==> #[trigger] BLOCK_BEGIN@[k] != '<',
        forall|k: int| 0 <= k < BLOCK_BEGIN@.len() ==> #[trigger] BLOCK_BEGIN@[k] != '\n',
{
    reveal_strlit("<!-- BEGIN TASKA INTEGRATION");
}

/// A file whose block stands where the first start marker is has that block as
/// its place.
proof fn lemma_block_found(front: Seq<char>, block: Seq<char>, back: Seq<char>)
    requires
        text::found(block, BLOCK_BEGIN@) == Some(0int),
        text::found(block, BLOCK_END@) == Some(block.len() - BLOCK_END@.len()),
        forall|m: int|
            0 <= m < front.len() ==> !#[trigger] text::occurs(
                front + block + back,
                BLOCK_BEGIN@,
                m,
            ),
    ensures
        block_place(front + block + back) == Some((front.len() as int, (front.len() + block.len()) as int)),
        spliced(front + block + back, block) is None,
{
    let s = front + block + back;
    let start = front.len() as int;
    text::found_is_first(block, BLOCK_BEGIN@);
    text::found_is_first(block, BLOCK_END@);
    assert(s.subrange(start, start + BLOCK_BEGIN@.len()) =~= block.subrange(
        0,
        BLOCK_BEGIN@.len() as int,
    ));
    text::first_is_found(s, BLOCK_BEGIN@, start);
    let rest = s.skip(start);
    let at = block.len() - BLOCK_END@.len();
    assert(rest.subrange(at, at + BLOCK_END@.len()) =~= block.subrange(
        at,
        at + BLOCK_END@.len(),
    ));
    assert forall|m: int| 0 <= m < at implies !#[trigger] text::occurs(rest, BLOCK_END@, m) by {
        assert(rest.subrange(m, m + BLOCK_END@.len()) =~= block.subrange(m, m + BLOCK_END@.len()));
        assert(!text::occurs(block, BLOCK_END@, m));
    }
    text::first_is_found(rest, BLOCK_END@, at);
    assert(s.subrange(start, start + block.len()) =~= block);
}

/// Putting the block in settles a file: doing it again changes nothing. The file
/// may not hold a start marker without an end marker after it.
pub proof fn splicing_settles(existing: Seq<char>, block: Seq<char>)
    requires
        text::found(block, BLOCK_BEGIN@) == Some(0int),
        text::found(block, BLOCK_END@) == Some(block.len() - BLOCK_END@.len()),
        text::found(existing, BLOCK_BEGIN@) is None || block_place(existing) is Some,
    ensures
        spliced(existing, block) matches Some(s) ==> spliced(s, block) is None,
{
    lemma_begin();
    text::found_is_first(existing, BLOCK_BEGIN@);
    text::found_is_first(block, BLOCK_BEGIN@);
    let size = BLOCK_BEGIN@.len() as int;
    assert(block[0] == BLOCK_BEGIN@[0]) by {
        assert(block.subrange(0, size)[0] == block[0]);
    }
    if let Some(s) = spliced(existing, block) {
        if let Some((start, end)) = block_place(existing) {
            text::found_is_first(existing.skip(start), BLOCK_END@);
            let front = existing.take(start);
            let tail = existing.skip(end);
            let joint = front + block + tail;
            let back = if joint.len() > 0 && joint.last() == '\n' { tail } else { tail.push('\n') };
            assert(s =~= front + block + back);
            assert forall|m: int| 0 <= m < start implies !#[trigger] text::occurs(
                s,
                BLOCK_BEGIN@,
                m,
            ) by {
                if m + size <= start {
                    assert(s.subrange(m, m + size) =~= existing.subrange(m, m + size));
                    assert(!text::occurs(existing, BLOCK_BEGIN@, m));
                } else if m + size <= s.len() {
                    assert(s.subrange(m, m + size)[start - m] == block[0]);
                }
            }
            lemma_block_found(front, block, back);
        } else {
            let t = text::trimmed_end(existing);
            text::trimmed_end_is_front(existing);
            reveal_strlit("\n\n");
            let front = if t.len() > 0 { t + "\n\n"@ } else { t };
            assert forall|m: int| 0 <= m < front.len() implies !#[trigger] text::occurs(
                s,
                BLOCK_BEGIN@,
                m,
            ) by {
                if m + size <= t.len() {
                    assert(s.subrange(m, m + size) =~= existing.subrange(m, m + size));
                    assert(!text::occurs(existing, BLOCK_BEGIN@, m));
                } else if m + size <= s.len() {
                    let k = if m <= t.len() { t.len() - m } else { 0 };
                    assert(s[m + k] == '\n');
                    assert(s.subrange(m, m + size)[k] == '\n');
                }
            }
            lemma_block_found(front, block, "\n"@);
        }
    }
}

/// Puts the block into a file; nothing where it is there already.
pub fn splice_block(existing: &str, block: &str) -> (r: Option<String>)
    ensures
        r.deep_view() == spliced(existing@, block@),
{
    let chars = text::chars_of(existing);
    match text::find(&chars, 0, BLOCK_BEGIN) {
        Some(start) => {
            assert(chars@.skip(0) =~= chars@);
            match text::find(&chars, start, BLOCK_END) {
                Some(at) => {
                    let end = at + text::chars_of(BLOCK_END).len();
                    let held = text::text_of(&chars, start, end);
                    if text::same_text(held.as_str(), block) {
                        return None;
                    }
                    let front = text::text_of(&chars, 0, start);
                    let back = text::text_of(&chars, end, chars.len());
                    let mut out = text::cat3(front.as_str(), block, back.as_str());
                    proof {
                        assert(front@ =~= existing@.take(start as int));
                        assert(back@ =~= existing@.skip(end as int));
                    }
                    let done = text::chars_of(out.as_str());
                    if !(done.len() > 0 && done[done.len() - 1] == '\n') {
                        out.push('\n');
                    }
                    return Some(out);
                },
                None => {},
            }
        },
        None => {
            assert(chars@.skip(0) =~= chars@);
        },
    }
    let before = text::trim_end(existing);
    let gap = if text::is_blank(before.as_str()) {
        before
    } else {
        text::cat2(before.as_str(), "\n\n")
    };
    Some(text::cat3(gap.as_str(), block, "\n"))
}

/// Brings one file up to date: what it held, if it was there, and the block.
/// Gives what happened, and what to write if anything.
pub fn sync_file(current: Option<String>, block: &str) -> (r: (AgentFileStatus, Option<String>))
    ensures
        ({
            let held = match current {
                Some(c) => c@,
                None => Seq::empty(),
            };
            &&& r.1.deep_view() == spliced(held, block@)
            &&& r.0 == if spliced(held, block@) is None {
                AgentFileStatus::Unchanged
            } else if current is Some {
                AgentFileStatus::Updated
            } else {
                AgentFileStatus::Created
            }
        }),
{
    let existed = current.is_some();
    let held = match current {
        Some(c) => c,
        None => String::new(),
    };
    assert(current is None ==> held@ =~= Seq::<char>::empty());
    match splice_block(held.as_str(), block) {
        Some(s) => (
            if existed {
                AgentFileStatus::Updated
            } else {
                AgentFileStatus::Created
            },
            Some(s),
        ),
        None => (AgentFileStatus::Unchanged, None),
    }
}

/// What hashing a text writes to a hasher.
pub uninterp spec fn text_writes(s: Seq<char>) -> Seq<Seq<u8>>;

/// `Hash::hash` of a text. What it writes to the hasher depends on the text
/// alone; nothing else is claimed of it.
#[verifier::external_body]
fn feed(s: &str, hasher: &mut DefaultHasher)
    ensures
        final(hasher)@ == old(hasher)@ + text_writes(s@),
{
    std::hash::Hash::hash(s, hasher);
}

/// The number that a hasher gives for a text alone.
pub open spec fn digest(s: Seq<char>) -> u64 {
    DefaultHasher::spec_finish(text_writes(s))
}

fn hash_of(s: &str) -> (r: u64)
    ensures
        r == digest(s@),
{
    let mut hasher = DefaultHasher::new();
    feed(s, &mut hasher);
    assert(hasher@ =~= text_writes(s@));
    hasher.finish()
}

/// A hexadecimal digit.
pub open spec fn hex_digit(d: nat) -> char {
    if d < 10 {
        (48 + d) as char
    } else {
        (87 + d) as char
    }
}

/// The last `digits` hexadecimal digits of `n`.
pub open spec fn hex(n: nat, digits: nat) -> Seq<char>
    decreases digits,
{
    if digits == 0 {
        Seq::empty()
    } else {
        hex(n / 16, (digits - 1) as nat).push(hex_digit(n % 16))
    }
}

fn hex_char(d: u64) -> (r: char)
    requires
        d < 16,
    ensures
        r == hex_digit(d as nat),
{
    if d < 10 {
        (48 + d as u8) as char
    } else {
        (87 + d as u8) as char
    }
}

fn hex_text(n: u64, digits: usize) -> (r: String)
    ensures
        r@ == hex(n as nat, digits as nat),
    decreases digits,
{
    if digits == 0 {
        let r = String::new();
        assert(r@ =~= Seq::<char>::empty());
        r
    } else {
        let mut r = hex_text(n / 16, digits - 1);
        r.push(hex_char(n % 16));
        r
    }
}

/// A short hash of a text, for the first line of a block: eight hexadecimal
/// digits.
pub fn short_hash(s: &str) -> (r: String)
    ensures
        r@ == hex(digest(s@) as nat, 8),
{
    hex_text(hash_of(s), 8)
}

/// The commands of the block.
pub open spec fn block_commands() -> Seq<(Seq<char>, Seq<char>)> {
    seq![
        ("ta list --ready"@, "actionable work: not done, all deps done"@),
        ("ta show <id> --full"@, "one task - every field, full notes"@),
        (
            "ta create <id> <field>=<value> ..."@,
            "file new work (the status field defaults - don't set it)"@,
        ),
        ("ta update <id> <field>=<value> ..."@, "=, +=, -=  (set / append / remove)"@),
        ("ta dep add <id> <type>=<target>"@, "link a dependency"@),
        ("ta status"@, "counts"@),
    ]
}

/// The guidance before the commands.
pub const GUIDANCE: &'static str = "## Task tracking (taska)\n\nThis repo tracks work in a local, git-native store (`.taska/`) - drive it through the `ta` CLI, never hand-edit `.taska/` and never `git restore` it out from under in-flight work (either corrupts the append-only log). Field names, statuses, task types, and relationships are defined by `.taska/config.toml` and vary per repo, so run `ta prime` for THIS store's schema and copy-paste-ready examples, and `ta <command> --help` for a command's flags.\n\n```bash\n";

/// The guidance after the commands.
pub const HABITS: &'static str = "\n```\n\nWorking habits:\n- File a task for each distinct piece of work, before or as you start it, with `notes` rich enough for someone else to act on: the goal, intended approach/implementation details, and any open or design questions.\n- For long or multi-line values, read from stdin (`<field>=@-`) or a file (`<field>=@FILE`) instead of quoting on the command line (`+=`/`-=` accept `@` too).\n- Set prerequisites with `ta dep add`, and append progress to related tasks (`<field>+=...`) as things change so the trail stays current.\n- Read a task's full, untruncated notes with `ta show <id> --full`.\n- Commit the `.taska/` change in the same commit as the code it describes; if the store has pending changes unrelated to what you're starting, commit those first.";

/// The guidance.
pub open spec fn block_body() -> Seq<char> {
    GUIDANCE@ + guide::aligned(block_commands()) + HABITS@
}

/// The whole block: the start marker with version and hash, the guidance and
/// the end marker. Nothing in it depends on a configuration.
pub open spec fn block_text() -> Seq<char> {
    BLOCK_BEGIN@ + " v"@ + text::decimal(BLOCK_VERSION as nat) + " hash:"@ + hex(
        digest(block_body()) as nat,
        8,
    ) + " -->\n"@ + block_body() + "\n"@ + BLOCK_END@
}

fn command(c: &str, note: &str) -> (r: (String, String))
    ensures
        r.deep_view() == (c@, note@),
{
    (String::from_str(c), String::from_str(note))
}

/// The block.
pub fn integration_block() -> (r: String)
    ensures
        r@ == block_text(),
{
    let mut cmds: Vec<(String, String)> = Vec::new();
    cmds.push(command("ta list --ready", "actionable work: not done, all deps done"));
    cmds.push(command("ta show <id> --full", "one task - every field, full notes"));
    cmds.push(
        command(
            "ta create <id> <field>=<value> ...",
            "file new work (the status field defaults - don't set it)",
        ),
    );
    cmds.push(
        command("ta update <id> <field>=<value> ...", "=, +=, -=  (set / append / remove)"),
    );
    cmds.push(command("ta dep add <id> <type>=<target>", "link a dependency"));
    cmds.push(command("ta status", "counts"));
    assert(cmds.deep_view() =~= block_commands());
    let body = text::cat3(GUIDANCE, guide::align(&cmds).as_str(), HABITS);
    let head = text::cat5(
        BLOCK_BEGIN,
        " v",
        text::decimal_text(BLOCK_VERSION).as_str(),
        " hash:",
        short_hash(body.as_str()).as_str(),
    );
    text::cat5(head.as_str(), " -->\n", body.as_str(), "\n", BLOCK_END)
}

/// The line for one agent file.
pub fn agent_line(file: &AgentFile) -> (r: String)
    ensures
        r@ == (match file.status {
            AgentFileStatus::Created => "Wrote taska integration to"@,
            AgentFileStatus::Updated => "Updated taska integration in"@,
            AgentFileStatus::Unchanged => "taska integration already current in"@,
        }) + " "@ + file.path@,
{
    let lead = match file.status {
        AgentFileStatus::Created => "Wrote taska integration to",
        AgentFileStatus::Updated => "Updated taska integration in",
        AgentFileStatus::Unchanged => "taska integration already current in",
    };
    text::cat3(lead, " ", file.path.as_str())
}

/// The line for the store.
pub fn store_line(store: &StoreInit) -> (r: String)
    ensures
        r@ == (match store {
            StoreInit::Reused(dir) => "taska store already present at "@ + dir@,
            StoreInit::Created(dir) => "Initialized taska store at "@ + dir@,
        }),
{
    match store {
        StoreInit::Reused(dir) => text::cat2("taska store already present at ", dir.as_str()),
        StoreInit::Created(dir) => text::cat2("Initialized taska store at ", dir.as_str()),
    }
}

proof fn lemma_there(names: Seq<Seq<char>>, present: Seq<bool>, x: Seq<char>)
    ensures
        there(names, present).contains(x) <==> exists|i: int|
            0 <= i < names.len() && #[trigger] names[i] == x && present[i],
    decreases names.len(),
{
    if names.len() > 0 {
        let rest = names.drop_last();
        lemma_there(rest, present, x);
        let few = there(rest, present);
        let all = there(names, present);
        let n = names.len() - 1;
        if few.contains(x) {
            let i = choose|i: int| 0 <= i < rest.len() && #[trigger] rest[i] == x && present[i];
            assert(names[i] == x);
            let k = choose|k: int| 0 <= k < few.len() && few[k] == x;
            assert(all[k] == x);
        }
        if present[n] && names[n] == x {
            assert(all[few.len() as int] == x);
        }
        if exists|i: int| 0 <= i < names.len() && #[trigger] names[i] == x && present[i] {
            let i = choose|i: int| 0 <= i < names.len() && #[trigger] names[i] == x && present[i];
            if i < rest.len() {
                assert(rest[i] == x);
            }
        }
        if all.contains(x) {
            let k = choose|k: int| 0 <= k < all.len() && all[k] == x;
            if k < few.len() {
                assert(few[k] == x);
            } else {
                assert(names[n] == x);
            }
        }
    }
}

/// The files that get the block: those of the known ones that are there, or the
/// first one where none is.
pub proof fn blocks_go_where_files_are(names: Seq<Seq<char>>, present: Seq<bool>, x: Seq<char>)
    requires
        names.len() > 0,
        present.len() == names.len(),
    ensures
        (exists|i: int| 0 <= i < present.len() && #[trigger] present[i]) ==> (targets_of(
            names,
            present,
        ).contains(x) <==> exists|i: int|
            0 <= i < names.len() && #[trigger] names[i] == x && present[i]),
        (forall|i: int| 0 <= i < present.len() ==> !#[trigger] present[i]) ==> targets_of(
            names,
            present,
        ) == seq![names[0]],
{
    lemma_there(names, present, x);
    if exists|i: int| 0 <= i < present.len() && #[trigger] present[i] {
        let i = choose|i: int| 0 <= i < present.len() && #[trigger] present[i];
        lemma_there(names, present, names[i]);
        assert(there(names, present).contains(names[i]));
    } else {
        if there(names, present).len() > 0 {
            let y = there(names, present)[0];
            lemma_there(names, present, y);
            assert(there(names, present).contains(y));
        }
        assert(names.take(1) =~= seq![names[0]]);
    }
}

/// A file without a block keeps its text, but for white space at its end, and the
/// block comes after it, apart by an empty line; an empty file becomes the block.
pub proof fn blocks_come_after_the_text(existing: Seq<char>, block: Seq<char>)
    requires
        text::found(existing, BLOCK_BEGIN@) is None,
    ensures
        ({
            let kept = text::trimmed_end(existing);
            &&& text::begins(existing, kept)
            &&& kept.len() > 0 ==> spliced(existing, block) == Some(
                kept + seq!['\n', '\n'] + block + seq!['\n'],
            )
            &&& kept.len() == 0 ==> spliced(existing, block) == Some(block + seq!['\n'])
        }),
{
    reveal_strlit("\n");
    reveal_strlit("\n\n");
    assert("\n"@ =~= seq!['\n']);
    assert("\n\n"@ =~= seq!['\n', '\n']);
    text::trimmed_end_is_front(existing);
    let kept = text::trimmed_end(existing);
    assert(kept.len() == 0 ==> kept + block + seq!['\n'] =~= block + seq!['\n']);
}

/// The block of the integration starts with the mark of its beginning and ends
/// with that of its end, so that it is found again.
pub proof fn the_block_is_marked()
    ensures
        text::begins(block_text(), BLOCK_BEGIN@),
        block_text().skip(block_text().len() - BLOCK_END@.len()) == BLOCK_END@,
{
    let t = block_text();
    assert(t.take(BLOCK_BEGIN@.len() as int) =~= BLOCK_BEGIN@);
    assert(t.skip(t.len() - BLOCK_END@.len()) =~= BLOCK_END@);
}

/// A number in hexadecimal has the asked number of digits, each a digit or a
/// letter up to `f`, and they stand for what is left of the number there.
pub proof fn hexadecimal_digits(n: nat, digits: nat)
    requires
        digits > 0,
    ensures
        hex(n, digits).len() == digits,
        ({
            let c = hex(n, digits).last();
            let d = n % 16;
            &&& d < 10 ==> c as int == '0' as int + d
            &&& d >= 10 ==> c as int == 'a' as int + d - 10
        }),
        hex(n, digits).drop_last() == hex(n / 16, (digits - 1) as nat),
    decreases digits,
{
    if digits > 1 {
        hexadecimal_digits(n / 16, (digits - 1) as nat);
    }
    assert(hex(n, digits).drop_last() =~= hex(n / 16, (digits - 1) as nat));
}

} // verus!
