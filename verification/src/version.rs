//! Versions: reading them, telling which copy of the program is the newest, and
//! what a release is called.

use crate::text;
use vstd::prelude::*;

verus! {

/// A version: major, minor, patch.
pub type Version = (u64, u64, u64);

/// The length of the word at the front of `s`.
pub open spec fn word_len(s: Seq<char>) -> nat
    decreases s.len(),
{
    if s.len() == 0 || text::space(s[0]) {
        0
    } else {
        1 + word_len(s.drop_first())
    }
}

pub proof fn lemma_word_len(s: Seq<char>)
    ensures
        word_len(s) <= s.len(),
    decreases s.len(),
{
    if s.len() > 0 && !text::space(s[0]) {
        lemma_word_len(s.drop_first());
    }
}

pub proof fn lemma_trimmed_start(s: Seq<char>)
    ensures
        text::trimmed_start(s).len() <= s.len(),
        text::trimmed_start(s).len() > 0 ==> !text::space(text::trimmed_start(s)[0]),
    decreases s.len(),
{
    if s.len() > 0 && text::space(s[0]) {
        lemma_trimmed_start(s.drop_first());
    }
}

/// The words of `s`.
pub open spec fn words(s: Seq<char>) -> Seq<Seq<char>>
    decreases s.len(),
{
    let t = text::trimmed_start(s);
    if t.len() == 0 {
        Seq::empty()
    } else {
        proof {
            lemma_trimmed_start(s);
            lemma_word_len(t);
        }
        seq![t.take(word_len(t) as int)] + words(t.skip(word_len(t) as int))
    }
}

/// The first word that starts with a digit.
pub open spec fn first_number(words: Seq<Seq<char>>) -> Option<Seq<char>>
    decreases words.len(),
{
    if words.len() == 0 {
        None
    } else if words[0].len() > 0 && text::is_digit_char(words[0][0]) {
        Some(words[0])
    } else {
        first_number(words.drop_first())
    }
}

/// What stands before a pre-release or build tag.
pub open spec fn core_of(s: Seq<char>) -> Seq<char>
    decreases s.len(),
{
    if s.len() == 0 || s[0] == '-' || s[0] == '+' {
        Seq::empty()
    } else {
        seq![s[0]] + core_of(s.drop_first())
    }
}

/// The number a part of a version stands for.
pub open spec fn part_value(p: Seq<char>) -> Option<u64> {
    if p.len() > 0 && (forall|i: int| 0 <= i < p.len() ==> text::is_digit_char(#[trigger] p[i]))
        && text::digits_value(p) <= u64::MAX {
        Some(text::digits_value(p) as u64)
    } else {
        None
    }
}

/// The `n`th part of a version, 0 if there are fewer.
pub open spec fn part_at(parts: Seq<Seq<char>>, n: int) -> Option<u64> {
    if n < parts.len() {
        part_value(parts[n])
    } else {
        Some(0)
    }
}

/// The version a text names: the first word that starts with a digit, without
/// tags, read as up to three numbers.
pub open spec fn version_of(s: Seq<char>) -> Option<Version> {
    match first_number(words(s)) {
        Some(w) => {
            let parts = text::split_at(core_of(w), '.');
            match (part_at(parts, 0), part_at(parts, 1), part_at(parts, 2)) {
                (Some(a), Some(b), Some(c)) => Some((a, b, c)),
                _ => None,
            }
        },
        None => None,
    }
}

fn next_word(v: &Vec<char>, from: usize) -> (r: (usize, usize))
    requires
        from <= v.len(),
    ensures
        from <= r.0 <= r.1 <= v.len(),
        r.0 == r.1 ==> words(v@.skip(from as int)) == Seq::<Seq<char>>::empty(),
        r.0 < r.1 ==> words(v@.skip(from as int)) == seq![v@.subrange(r.0 as int, r.1 as int)]
            + words(v@.skip(r.1 as int)),
{
    let mut i: usize = from;
    let ghost whole = v@.skip(from as int);
    while i < v.len() && text::is_space(v[i])
        invariant
            from <= i <= v.len(),
            text::trimmed_start(whole) == text::trimmed_start(v@.skip(i as int)),
        decreases v.len() - i,
    {
        assert(v@.skip(i as int).drop_first() =~= v@.skip(i as int + 1));
        i += 1;
    }
    let ghost t = v@.skip(i as int);
    assert(text::trimmed_start(whole) == t);
    let start = i;
    while i < v.len() && !text::is_space(v[i])
        invariant
            start <= i <= v.len(),
            t == v@.skip(start as int),
            word_len(t) == (i - start) + word_len(v@.skip(i as int)),
        decreases v.len() - i,
    {
        assert(v@.skip(i as int).drop_first() =~= v@.skip(i as int + 1));
        i += 1;
    }
    proof {
        assert(word_len(t) == i - start);
        assert(t.take(word_len(t) as int) =~= v@.subrange(start as int, i as int));
        assert(t.skip(word_len(t) as int) =~= v@.skip(i as int));
    }
    (start, i)
}

fn pick_number(v: &Vec<char>) -> (r: Option<(usize, usize)>)
    ensures
        match r {
            Some((a, b)) => a <= b <= v.len() && first_number(words(v@)) == Some(
                v@.subrange(a as int, b as int),
            ),
            None => first_number(words(v@)) is None,
        },
{
    let mut from: usize = 0;
    assert(v@.skip(0) =~= v@);
    loop
        invariant
            from <= v.len(),
            first_number(words(v@)) == first_number(words(v@.skip(from as int))),
        decreases v.len() - from,
    {
        let (a, b) = next_word(v, from);
        if a == b {
            return None;
        }
        let ghost rest = words(v@.skip(from as int));
        assert(rest[0] == v@.subrange(a as int, b as int));
        assert(rest.drop_first() =~= words(v@.skip(b as int)));
        if '0' <= v[a] && v[a] <= '9' {
            return Some((a, b));
        }
        from = b;
    }
}

fn core_text(v: &Vec<char>, from: usize, to: usize) -> (r: String)
    requires
        from <= to <= v.len(),
    ensures
        r@ == core_of(v@.subrange(from as int, to as int)),
{
    let ghost w = v@.subrange(from as int, to as int);
    let mut i: usize = from;
    let mut out = String::new();
    assert(out@ =~= Seq::<char>::empty());
    assert(out@ + core_of(v@.subrange(i as int, to as int)) =~= core_of(w));
    while i < to && v[i] != '-' && v[i] != '+'
        invariant
            from <= i <= to <= v.len(),
            out@ + core_of(v@.subrange(i as int, to as int)) == core_of(w),
        decreases to - i,
    {
        let ghost rest = v@.subrange(i as int, to as int);
        let ghost had = out@;
        assert(rest.drop_first() =~= v@.subrange(i as int + 1, to as int));
        out.push(v[i]);
        assert(had + (seq![rest[0]] + core_of(rest.drop_first())) =~= out@ + core_of(
            rest.drop_first(),
        ));
        i += 1;
    }
    assert(core_of(v@.subrange(i as int, to as int)) =~= Seq::<char>::empty());
    assert(out@ =~= core_of(w));
    out
}

fn value_of(p: &str) -> (r: Option<u64>)
    ensures
        r == part_value(p@),
{
    let v = text::chars_of(p);
    if v.len() == 0 {
        return None;
    }
    let mut i: usize = 0;
    while i < v.len()
        invariant
            i <= v.len(),
            v@ == p@,
            forall|k: int| 0 <= k < i ==> text::is_digit_char(#[trigger] v@[k]),
        decreases v.len() - i,
    {
        if !('0' <= v[i] && v[i] <= '9') {
            assert(!text::is_digit_char(p@[i as int]));
            return None;
        }
        i += 1;
    }
    assert(v@.subrange(0, v@.len() as int) =~= v@);
    text::parse_digits(&v, 0, v.len())
}

fn value_at(parts: &Vec<String>, n: usize) -> (r: Option<u64>)
    ensures
        r == part_at(parts.deep_view(), n as int),
{
    if n < parts.len() {
        assert(parts.deep_view()[n as int] == parts@[n as int]@);
        value_of(parts[n].as_str())
    } else {
        Some(0)
    }
}

/// The version that `text` names.
pub fn parse_version(s: &str) -> (r: Option<Version>)
    ensures
        r == version_of(s@),
{
    let v = text::chars_of(s);
    match pick_number(&v) {
        Some((a, b)) => {
            let core = core_text(&v, a, b);
            let parts = text::split(core.as_str(), '.');
            match (value_at(&parts, 0), value_at(&parts, 1), value_at(&parts, 2)) {
                (Some(a), Some(b), Some(c)) => Some((a, b, c)),
                _ => None,
            }
        },
        None => None,
    }
}

/// A version as text.
pub open spec fn version_text(v: Version) -> Seq<char> {
    text::decimal(v.0 as nat) + "."@ + text::decimal(v.1 as nat) + "."@ + text::decimal(v.2 as nat)
}

/// A version as text.
pub fn fmt_ver(v: Version) -> (r: String)
    ensures
        r@ == version_text(v),
{
    text::cat5(
        text::decimal_text(v.0).as_str(),
        ".",
        text::decimal_text(v.1).as_str(),
        ".",
        text::decimal_text(v.2).as_str(),
    )
}

/// `s` with each single quote written so that a shell takes it as it is.
pub open spec fn escaped(s: Seq<char>) -> Seq<char>
    decreases s.len(),
{
    if s.len() == 0 {
        Seq::empty()
    } else if s.last() == '\'' {
        escaped(s.drop_last()) + "'\\''"@
    } else {
        escaped(s.drop_last()).push(s.last())
    }
}

/// `s` in single quotes for a shell.
pub open spec fn shell_quoted(s: Seq<char>) -> Seq<char> {
    "'"@ + escaped(s) + "'"@
}

/// `s` in single quotes for a shell.
pub fn shell_quote(s: &str) -> (r: String)
    ensures
        r@ == shell_quoted(s@),
{
    let v = text::chars_of(s);
    let mut out = String::new();
    let mut i: usize = 0;
    assert(v@.take(0) =~= Seq::empty());
    assert(out@ =~= Seq::<char>::empty());
    while i < v.len()
        invariant
            i <= v.len(),
            out@ == escaped(v@.take(i as int)),
        decreases v.len() - i,
    {
        let ghost longer = v@.take(i as int + 1);
        assert(longer.drop_last() =~= v@.take(i as int));
        if v[i] == '\'' {
            out.append("'\\''");
        } else {
            out.push(v[i]);
        }
        i += 1;
    }
    assert(v@.take(v@.len() as int) =~= v@);
    text::cat3("'", out.as_str(), "'")
}

/// One copy of the program: where it is, its version if that could be read, and
/// whether it is the one that runs.
pub struct ShadowEntry {
    pub display: String,
    pub version: Option<Version>,
    pub running: bool,
}

/// Whether version `a` is older than `b`.
pub open spec fn older(a: Version, b: Version) -> bool {
    a.0 < b.0 || (a.0 == b.0 && (a.1 < b.1 || (a.1 == b.1 && a.2 < b.2)))
}

/// The newest version among the copies.
pub open spec fn newest_of(entries: Seq<ShadowEntry>) -> Option<Version>
    decreases entries.len(),
{
    if entries.len() == 0 {
        None
    } else {
        let rest = newest_of(entries.drop_last());
        match (rest, entries.last().version) {
            (Some(a), Some(b)) => if older(a, b) {
                Some(b)
            } else {
                Some(a)
            },
            (None, Some(b)) => Some(b),
            (_, None) => rest,
        }
    }
}

/// The line of one copy, marked if it runs and if it is the newest.
pub open spec fn entry_line(e: ShadowEntry, newest: Option<Version>) -> Seq<char> {
    "  "@ + text::padded(
        match e.version {
            Some(v) => version_text(v),
            None => "?"@,
        },
        8,
    ) + " "@ + e.display@ + (if e.running { " <- running"@ } else { ""@ }) + (if e.version is Some
        && e.version == newest {
        " (newest)"@
    } else {
        ""@
    }) + "\n"@
}

/// The lines of the copies.
pub open spec fn entry_lines(entries: Seq<ShadowEntry>, newest: Option<Version>) -> Seq<char>
    decreases entries.len(),
{
    if entries.len() == 0 {
        Seq::empty()
    } else {
        entry_lines(entries.drop_last(), newest) + entry_line(entries.last(), newest)
    }
}

/// The first copy with the newest version, of those that run if `running`.
pub open spec fn place_of(entries: Seq<ShadowEntry>, newest: Version, running: bool) -> Option<int>
    decreases entries.len(),
{
    if entries.len() == 0 {
        None
    } else {
        match place_of(entries.drop_last(), newest, running) {
            Some(n) => Some(n),
            None => if entries.last().version == Some(newest) && (running ==> entries.last().running) {
                Some(entries.len() - 1)
            } else {
                None
            },
        }
    }
}

/// The copy to keep: the running one if it is the newest, else the first that
/// is.
pub open spec fn kept_place(entries: Seq<ShadowEntry>, newest: Version) -> Option<int> {
    match place_of(entries, newest, true) {
        Some(n) => Some(n),
        None => place_of(entries, newest, false),
    }
}

/// The copies but for the `keep`th, quoted.
pub open spec fn others(entries: Seq<ShadowEntry>, keep: int) -> Seq<Seq<char>>
    decreases entries.len(),
{
    if entries.len() == 0 {
        Seq::empty()
    } else {
        let rest = others(entries.drop_last(), keep);
        if entries.len() - 1 == keep {
            rest
        } else {
            rest.push(shell_quoted(entries.last().display@))
        }
    }
}

/// The advice on several copies of the program: a line for each, and how to
/// keep only the newest.
pub open spec fn advice(entries: Seq<ShadowEntry>) -> Seq<char> {
    let newest = newest_of(entries);
    let table = "warning: "@ + text::decimal(entries.len())
        + " `ta` binaries are on PATH (the first shadows the rest):\n"@ + entry_lines(
        entries,
        newest,
    );
    match newest {
        None => table
            + "hint: couldn't read their versions - compare with `<path> --version` and remove the older copies."@,
        Some(newest) => match kept_place(entries, newest) {
            None => table,
            Some(keep) => {
                let rm = others(entries, keep);
                if rm.len() == 0 {
                    table
                } else {
                    table + (if entries[keep].running {
                        "to keep only the newest (already running) and drop the rest, run:\n"@
                    } else {
                        "the running `ta` is NOT the newest ("@ + version_text(newest)
                            + "); to keep only the newest, run:\n"@
                    }) + "  rm "@ + text::joined(rm, " "@)
                }
            },
        },
    }
}

fn is_older(a: Version, b: Version) -> (r: bool)
    ensures
        r == older(a, b),
{
    a.0 < b.0 || (a.0 == b.0 && (a.1 < b.1 || (a.1 == b.1 && a.2 < b.2)))
}

fn same_version(a: Option<Version>, b: Option<Version>) -> (r: bool)
    ensures
        r == (a == b),
{
    match (a, b) {
        (Some(x), Some(y)) => x.0 == y.0 && x.1 == y.1 && x.2 == y.2,
        (None, None) => true,
        _ => false,
    }
}

fn newest(entries: &Vec<ShadowEntry>) -> (r: Option<Version>)
    ensures
        r == newest_of(entries@),
{
    let mut best: Option<Version> = None;
    let mut i: usize = 0;
    assert(entries@.take(0) =~= Seq::empty());
    while i < entries.len()
        invariant
            i <= entries.len(),
            best == newest_of(entries@.take(i as int)),
        decreases entries.len() - i,
    {
        let ghost longer = entries@.take(i as int + 1);
        assert(longer.drop_last() =~= entries@.take(i as int));
        match (best, entries[i].version) {
            (Some(a), Some(b)) => if is_older(a, b) {
                best = Some(b);
            },
            (None, Some(b)) => {
                best = Some(b);
            },
            (_, None) => {},
        }
        i += 1;
    }
    assert(entries@.take(entries@.len() as int) =~= entries@);
    best
}

fn line_of(e: &ShadowEntry, newest: Option<Version>) -> (r: String)
    ensures
        r@ == entry_line(*e, newest),
{
    let v = match e.version {
        Some(v) => fmt_ver(v),
        None => String::from_str("?"),
    };
    let run = if e.running { " <- running" } else { "" };
    let top = if e.version.is_some() && same_version(e.version, newest) { " (newest)" } else { "" };
    text::cat7("  ", text::pad(v.as_str(), 8).as_str(), " ", e.display.as_str(), run, top, "\n")
}

fn find_copy(entries: &Vec<ShadowEntry>, newest: Version, running: bool) -> (r: Option<usize>)
    ensures
        match r {
            Some(n) => n < entries.len() && place_of(entries@, newest, running) == Some(n as int),
            None => place_of(entries@, newest, running) is None,
        },
{
    let mut at: Option<usize> = None;
    let mut i: usize = 0;
    assert(entries@.take(0) =~= Seq::empty());
    while i < entries.len()
        invariant
            i <= entries.len(),
            match at {
                Some(n) => n < i && place_of(entries@.take(i as int), newest, running) == Some(
                    n as int,
                ),
                None => place_of(entries@.take(i as int), newest, running) is None,
            },
        decreases entries.len() - i,
    {
        let ghost longer = entries@.take(i as int + 1);
        assert(longer.drop_last() =~= entries@.take(i as int));
        if at.is_none() && same_version(entries[i].version, Some(newest)) && (!running
            || entries[i].running) {
            at = Some(i);
        }
        i += 1;
    }
    assert(entries@.take(entries@.len() as int) =~= entries@);
    at
}

fn quote_others(entries: &Vec<ShadowEntry>, keep: usize) -> (r: Vec<String>)
    ensures
        r.deep_view() == others(entries@, keep as int),
{
    let mut out: Vec<String> = Vec::new();
    let mut i: usize = 0;
    assert(entries@.take(0) =~= Seq::empty());
    assert(out.deep_view() =~= Seq::empty());
    while i < entries.len()
        invariant
            i <= entries.len(),
            out.deep_view() == others(entries@.take(i as int), keep as int),
        decreases entries.len() - i,
    {
        let ghost longer = entries@.take(i as int + 1);
        assert(longer.drop_last() =~= entries@.take(i as int));
        if i != keep {
            let ghost had = out.deep_view();
            let q = shell_quote(entries[i].display.as_str());
            out.push(q);
            assert(out.deep_view() =~= had.push(q@));
        }
        i += 1;
    }
    assert(entries@.take(entries@.len() as int) =~= entries@);
    out
}

/// The advice on several copies of the program.
pub fn shadow_recommendation(entries: &Vec<ShadowEntry>) -> (r: String)
    ensures
        r@ == advice(entries@),
{
    let best = newest(entries);
    let head = text::cat3(
        "warning: ",
        text::decimal_text(entries.len() as u64).as_str(),
        " `ta` binaries are on PATH (the first shadows the rest):\n",
    );
    let mut rows = String::new();
    let mut i: usize = 0;
    assert(entries@.take(0) =~= Seq::empty());
    assert(rows@ =~= Seq::<char>::empty());
    while i < entries.len()
        invariant
            i <= entries.len(),
            rows@ == entry_lines(entries@.take(i as int), best),
        decreases entries.len() - i,
    {
        let ghost longer = entries@.take(i as int + 1);
        assert(longer.drop_last() =~= entries@.take(i as int));
        rows.append(line_of(&entries[i], best).as_str());
        i += 1;
    }
    assert(entries@.take(entries@.len() as int) =~= entries@);
    let table = text::cat2(head.as_str(), rows.as_str());
    let top = match best {
        Some(v) => v,
        None => {
            return text::cat2(
                table.as_str(),
                "hint: couldn't read their versions - compare with `<path> --version` and remove the older copies.",
            );
        },
    };
    let found = match find_copy(entries, top, true) {
        Some(n) => Some(n),
        None => find_copy(entries, top, false),
    };
    let keep = match found {
        Some(n) => n,
        None => {
            return table;
        },
    };
    let rm = quote_others(entries, keep);
    assert(rm.deep_view().len() == rm.len());
    if rm.len() == 0 {
        return table;
    }
    let how = if entries[keep].running {
        String::from_str("to keep only the newest (already running) and drop the rest, run:\n")
    } else {
        text::cat3(
            "the running `ta` is NOT the newest (",
            fmt_ver(top).as_str(),
            "); to keep only the newest, run:\n",
        )
    };
    let front = text::cat3(table.as_str(), how.as_str(), "  rm ");
    text::cat2(front.as_str(), text::join(&rm, " ").as_str())
}

/// The release built for an operating system and a processor, if there is one.
pub open spec fn target_of(os: Seq<char>, arch: Seq<char>) -> Option<Seq<char>> {
    if os == "linux"@ && arch == "x86_64"@ {
        Some("x86_64-unknown-linux-musl"@)
    } else if os == "macos"@ && arch == "x86_64"@ {
        Some("x86_64-apple-darwin"@)
    } else if os == "macos"@ && arch == "aarch64"@ {
        Some("aarch64-apple-darwin"@)
    } else {
        None
    }
}

/// The release built for `os` on `arch`.
pub fn release_target(os: &str, arch: &str) -> (r: Option<&'static str>)
    ensures
        r.deep_view() == target_of(os@, arch@),
{
    if text::same_text(os, "linux") && text::same_text(arch, "x86_64") {
        Some("x86_64-unknown-linux-musl")
    } else if text::same_text(os, "macos") && text::same_text(arch, "x86_64") {
        Some("x86_64-apple-darwin")
    } else if text::same_text(os, "macos") && text::same_text(arch, "aarch64") {
        Some("aarch64-apple-darwin")
    } else {
        None
    }
}

/// The message where no release is built.
pub fn no_prebuilt(os: &str, arch: &str) -> (r: String)
    ensures
        r@ == "no prebuilt `ta` binary for this platform ("@ + os@ + " "@ + arch@
            + "); update with `cargo install taska` instead"@,
{
    text::cat5(
        "no prebuilt `ta` binary for this platform (",
        os,
        " ",
        arch,
        "); update with `cargo install taska` instead",
    )
}

/// The program's path in the archive `asset`: below the archive's own name
/// without its ending.
pub open spec fn path_in(asset: Seq<char>) -> Seq<char> {
    let ending = ".tar.gz"@;
    (if asset.len() >= ending.len() && asset.skip(asset.len() - ending.len()) == ending {
        asset.take(asset.len() - ending.len())
    } else {
        asset
    }) + "/ta"@
}

/// The program's path in the archive `asset`.
pub fn bin_path(asset: &str) -> (r: String)
    ensures
        r@ == path_in(asset@),
{
    let v = text::chars_of(asset);
    let ending = text::chars_of(".tar.gz");
    if v.len() >= ending.len() {
        let cut = v.len() - ending.len();
        let back = text::text_of(&v, cut, v.len());
        assert(back@ =~= asset@.skip(cut as int));
        if text::same_text(back.as_str(), ".tar.gz") {
            let stem = text::text_of(&v, 0, cut);
            assert(stem@ =~= asset@.take(cut as int));
            return text::cat2(stem.as_str(), "/ta");
        }
    }
    text::cat2(asset, "/ta")
}

/// What an update does.
#[derive(Clone, Copy, Debug, PartialEq, Eq, Structural)]
pub enum UpdateStep {
    /// Report that the latest release runs.
    UpToDate,
    /// Report that there is a newer release.
    Available,
    /// Report that there is nothing to do.
    AlreadyCurrent,
    /// Install the latest release.
    Install,
}

/// What an update does: a check only reports; a current program is replaced
/// only when forced.
pub open spec fn step_of(check: bool, force: bool, up_to_date: bool) -> UpdateStep {
    if check {
        if up_to_date {
            UpdateStep::UpToDate
        } else {
            UpdateStep::Available
        }
    } else if up_to_date && !force {
        UpdateStep::AlreadyCurrent
    } else {
        UpdateStep::Install
    }
}

/// What an update does where it is known whether the latest release runs.
pub fn update_step(check: bool, force: bool, up_to_date: bool) -> (r: UpdateStep)
    ensures
        r == step_of(check, force, up_to_date),
{
    if check {
        if up_to_date {
            UpdateStep::UpToDate
        } else {
            UpdateStep::Available
        }
    } else if up_to_date && !force {
        UpdateStep::AlreadyCurrent
    } else {
        UpdateStep::Install
    }
}

/// Whether the version `latest` is above the version `current`, or why one of
/// them is no version: what `bump_is_greater` of the `self_update` crate gives.
pub uninterp spec fn release_newer(current: Seq<char>, latest: Seq<char>) -> Result<
    bool,
    Seq<char>,
>;

/// Calls `self_update::version::bump_is_greater`, which reads both texts as
/// semantic versions and compares them. The contract gives the answer, or the
/// text of the error, a name.
#[verifier::external_body]
fn is_newer(current: &str, latest: &str) -> (r: Result<bool, String>)
    ensures
        match r {
            Ok(newer) => release_newer(current@, latest@) == Ok::<bool, Seq<char>>(newer),
            Err(m) => release_newer(current@, latest@) == Err::<bool, Seq<char>>(m@),
        },
{
    self_update::version::bump_is_greater(current, latest).map_err(|e| e.to_string())
}

/// What an update from the version `current` to the release `latest` does.
pub fn update_between(check: bool, force: bool, current: &str, latest: &str) -> (r: Result<
    UpdateStep,
    String,
>)
    ensures
        match release_newer(current@, latest@) {
            Ok(newer) => r == Ok::<UpdateStep, String>(step_of(check, force, !newer)),
            Err(e) => r matches Err(m) && m@ == e,
        },
{
    match is_newer(current, latest) {
        Ok(newer) => Ok(update_step(check, force, !newer)),
        Err(m) => Err(m),
    }
}

/// The version that an installation is told to replace: a forced one takes any
/// release for newer.
pub fn claimed_version(force: bool, current: &str) -> (r: String)
    ensures
        r@ == if force {
            "0.0.0"@
        } else {
            current@
        },
{
    if force {
        "0.0.0".to_string()
    } else {
        current.to_string()
    }
}

/// What is said before a step of an update, from the version that runs to the
/// latest one.
pub open spec fn update_text(step: UpdateStep, current: Seq<char>, latest: Seq<char>) -> Seq<char> {
    match step {
        UpdateStep::UpToDate => "up to date - "@ + latest + " is the latest release"@,
        UpdateStep::Available => "update available: "@ + current + " -> "@ + latest
            + " (run `ta self-update`)"@,
        UpdateStep::AlreadyCurrent => "already up to date ("@ + current
            + "); use --force to reinstall"@,
        UpdateStep::Install => "updating "@ + current + " -> "@ + latest + " ..."@,
    }
}

/// What is said before a step of an update.
pub fn update_line(step: UpdateStep, current: &str, latest: &str) -> (r: String)
    ensures
        r@ == update_text(step, current@, latest@),
{
    match step {
        UpdateStep::UpToDate => text::cat3("up to date - ", latest, " is the latest release"),
        UpdateStep::Available => text::cat5(
            "update available: ",
            current,
            " -> ",
            latest,
            " (run `ta self-update`)",
        ),
        UpdateStep::AlreadyCurrent => text::cat3(
            "already up to date (",
            current,
            "); use --force to reinstall",
        ),
        UpdateStep::Install => text::cat5("updating ", current, " -> ", latest, " ..."),
    }
}

/// Why a release cannot be installed: it has nothing for the platform.
pub fn no_asset(latest: &str, target: &str) -> (r: String)
    ensures
        r@ == "the latest release (v"@ + latest@ + ") ships no asset for "@ + target@
            + "; update with `cargo install taska`"@,
{
    text::cat5(
        "the latest release (v",
        latest,
        ") ships no asset for ",
        target,
        "; update with `cargo install taska`",
    )
}

proof fn lemma_one_word(s: Seq<char>)
    requires
        s.len() > 0,
        forall|i: int| 0 <= i < s.len() ==> !text::space(#[trigger] s[i]),
    ensures
        words(s) == seq![s],
{
    assert(text::trimmed_start(s) == s);
    lemma_long_word(s);
    assert(s.take(s.len() as int) =~= s);
    assert(s.skip(s.len() as int) =~= Seq::empty());
    assert(words(Seq::empty()) =~= Seq::empty());
    assert(words(s) =~= seq![s]);
}

proof fn lemma_long_word(s: Seq<char>)
    requires
        forall|i: int| 0 <= i < s.len() ==> !text::space(#[trigger] s[i]),
    ensures
        word_len(s) == s.len(),
    decreases s.len(),
{
    if s.len() > 0 {
        let rest = s.drop_first();
        assert forall|i: int| 0 <= i < rest.len() implies !text::space(#[trigger] rest[i]) by {
            assert(rest[i] == s[i + 1]);
        }
        lemma_long_word(rest);
    }
}

proof fn lemma_core(a: Seq<char>, b: Seq<char>)
    requires
        forall|i: int| 0 <= i < a.len() ==> #[trigger] a[i] != '-' && a[i] != '+',
        b.len() > 0 ==> b[0] == '-' || b[0] == '+',
    ensures
        core_of(a + b) == a,
    decreases a.len(),
{
    let s = a + b;
    if a.len() > 0 {
        let rest = a.drop_first();
        assert forall|i: int| 0 <= i < rest.len() implies #[trigger] rest[i] != '-' && rest[i]
            != '+' by {
            assert(rest[i] == a[i + 1]);
        }
        lemma_core(rest, b);
        assert(s.drop_first() =~= rest + b);
        assert(s[0] == a[0]);
        assert(seq![s[0]] + rest =~= a);
    } else {
        assert(s =~= b);
    }
}

/// A version that is written out reads back, also with a pre-release or build
/// suffix, which does not count.
pub proof fn versions_read_back(v: Version, suffix: Seq<char>)
    requires
        suffix.len() > 0 ==> suffix[0] == '-' || suffix[0] == '+',
        forall|i: int| 0 <= i < suffix.len() ==> !text::space(#[trigger] suffix[i]),
    ensures
        version_of(version_text(v) + suffix) == Some(v),
{
    reveal_strlit(".");
    let (a, b, c) = (
        text::decimal(v.0 as nat),
        text::decimal(v.1 as nat),
        text::decimal(v.2 as nat),
    );
    text::numbers_read_back(v.0 as nat);
    text::numbers_read_back(v.1 as nat);
    text::numbers_read_back(v.2 as nat);
    let dot = seq!['.'];
    assert("."@ =~= dot);
    let t = version_text(v);
    assert(t =~= a + dot + (b + dot + c));
    assert forall|i: int| 0 <= i < t.len() implies (text::is_digit_char(#[trigger] t[i]) || t[i]
        == '.') by {
        if i < a.len() {
            assert(t[i] == a[i]);
        } else if a.len() < i < a.len() + 1 + b.len() {
            assert(t[i] == b[i - a.len() - 1]);
        } else if i > a.len() + 1 + b.len() {
            assert(t[i] == c[i - a.len() - b.len() - 2]);
        }
    }
    let s = t + suffix;
    assert forall|i: int| 0 <= i < s.len() implies !text::space(#[trigger] s[i]) by {
        if i < t.len() {
            assert(s[i] == t[i]);
        } else {
            assert(s[i] == suffix[i - t.len()]);
        }
    }
    lemma_one_word(s);
    assert(s[0] == a[0]);
    assert(first_number(words(s)) == Some(s));
    lemma_core(t, suffix);
    assert(!a.contains('.') && !b.contains('.') && !c.contains('.'));
    text::split_parts(a, b + dot + c, '.');
    text::split_parts(b, c, '.');
    text::split_whole(a, '.');
    text::split_whole(b, '.');
    text::split_whole(c, '.');
    let parts = text::split_at(t, '.');
    assert(parts =~= seq![a, b, c]);
}

/// The newest of several copies is none older than any: its version is that of
/// one of them, and no version among them is higher. Without any version there is
/// no newest.
pub proof fn the_newest_is_not_older(entries: Seq<ShadowEntry>, i: int)
    requires
        0 <= i < entries.len(),
    ensures
        entries[i].version is Some ==> newest_of(entries) is Some && {
            let (a, n) = (entries[i].version->0, newest_of(entries)->0);
            a.0 <= n.0 && (a.0 == n.0 ==> a.1 <= n.1 && (a.1 == n.1 ==> a.2 <= n.2))
        },
        newest_of(entries) is Some ==> exists|k: int|
            0 <= k < entries.len() && (#[trigger] entries[k]).version == newest_of(entries),
    decreases entries.len(),
{
    let rest = entries.drop_last();
    if rest.len() > 0 {
        let k = if i < rest.len() {
            i
        } else {
            0
        };
        the_newest_is_not_older(rest, k);
        if newest_of(rest) is Some {
            let k = choose|k: int|
                0 <= k < rest.len() && (#[trigger] rest[k]).version == newest_of(rest);
            assert(entries[k].version == newest_of(rest));
        }
        if i < rest.len() {
            assert(entries[i] == rest[i]);
        }
    } else {
        assert(newest_of(rest) is None);
    }
    assert(entries[entries.len() - 1] == entries.last());
}

proof fn lemma_place(entries: Seq<ShadowEntry>, newest: Version, running: bool)
    ensures
        match place_of(entries, newest, running) {
            Some(n) => 0 <= n < entries.len() && entries[n].version == Some(newest) && (running
                ==> entries[n].running),
            None => forall|i: int|
                0 <= i < entries.len() ==> !((#[trigger] entries[i]).version == Some(newest) && (
                running ==> entries[i].running)),
        },
    decreases entries.len(),
{
    if entries.len() > 0 {
        let rest = entries.drop_last();
        lemma_place(rest, newest, running);
        if place_of(entries, newest, running) is None {
            assert forall|i: int| 0 <= i < entries.len() implies !((
            #[trigger] entries[i]).version == Some(newest) && (running ==> entries[i].running)) by {
                if i < rest.len() {
                    assert(rest[i] == entries[i]);
                }
            }
        }
    }
}

/// Of several copies the one to keep is a newest one, and a running one of these
/// if one of these runs; every other copy is to go.
pub proof fn the_newest_is_kept(entries: Seq<ShadowEntry>, newest: Version)
    requires
        exists|i: int| 0 <= i < entries.len() && (#[trigger] entries[i]).version == Some(newest),
    ensures
        ({
            let keep = kept_place(entries, newest);
            &&& keep is Some
            &&& 0 <= keep->0 < entries.len()
            &&& entries[keep->0].version == Some(newest)
            &&& (exists|i: int|
                0 <= i < entries.len() && (#[trigger] entries[i]).version == Some(newest)
                    && entries[i].running) ==> entries[keep->0].running
            &&& others(entries, keep->0).len() == entries.len() - 1
            &&& forall|i: int|
                0 <= i < entries.len() && i != keep->0 ==> others(entries, keep->0).contains(
                    shell_quoted((#[trigger] entries[i]).display@),
                )
        }),
{
    lemma_place(entries, newest, true);
    lemma_place(entries, newest, false);
    let i = choose|i: int| 0 <= i < entries.len() && (#[trigger] entries[i]).version == Some(newest);
    assert(entries[i].version == Some(newest));
    lemma_others(entries, kept_place(entries, newest)->0);
}

proof fn lemma_others(entries: Seq<ShadowEntry>, keep: int)
    ensures
        others(entries, keep).len() == entries.len() - if 0 <= keep < entries.len() {
            1int
        } else {
            0int
        },
        forall|i: int|
            0 <= i < entries.len() && i != keep ==> others(entries, keep).contains(
                shell_quoted((#[trigger] entries[i]).display@),
            ),
    decreases entries.len(),
{
    if entries.len() > 0 {
        let rest = entries.drop_last();
        lemma_others(rest, keep);
        let few = others(rest, keep);
        let all = others(entries, keep);
        assert forall|i: int| 0 <= i < entries.len() && i != keep implies all.contains(
            shell_quoted((#[trigger] entries[i]).display@),
        ) by {
            let q = shell_quoted(entries[i].display@);
            if i < rest.len() {
                assert(rest[i] == entries[i]);
                let k = choose|k: int| 0 <= k < few.len() && few[k] == q;
                assert(all[k] == q);
            } else {
                assert(all[few.len() as int] == q);
            }
        }
    }
}

/// A quoted word stands between single quotes. Text without one is kept as it
/// is, each single quote closes the quotes, comes escaped and opens them again,
/// and what follows does not change what came before.
pub proof fn quoting_goes_piece_by_piece(a: Seq<char>, b: Seq<char>)
    ensures
        !a.contains('\'') ==> shell_quoted(a) == seq!['\''] + a + seq!['\''],
        shell_quoted(a + seq!['\''] + b) == shell_quoted(a) + seq!['\\', '\''] + shell_quoted(b),
{
    reveal_strlit("'");
    reveal_strlit("'\\''");
    assert("'"@ =~= seq!['\'']);
    assert("'\\''"@ =~= seq!['\'', '\\', '\'', '\'']);
    if !a.contains('\'') {
        lemma_unescaped(a);
    }
    let q = seq!['\''];
    lemma_escaped_parts(a, q);
    lemma_escaped_parts(a + q, b);
    assert(q.drop_last() =~= Seq::<char>::empty());
    assert(escaped(q.drop_last()) =~= Seq::<char>::empty());
    assert(escaped(q) =~= "'\\''"@);
    assert(shell_quoted(a + q + b) =~= shell_quoted(a) + seq!['\\', '\''] + shell_quoted(b));
}

proof fn lemma_unescaped(s: Seq<char>)
    requires
        !s.contains('\''),
    ensures
        escaped(s) == s,
    decreases s.len(),
{
    if s.len() > 0 {
        let rest = s.drop_last();
        assert(s.contains(s.last()));
        assert forall|i: int| 0 <= i < rest.len() implies rest[i] != '\'' by {
            assert(s.contains(s[i]));
        }
        lemma_unescaped(rest);
        assert(rest.push(s.last()) =~= s);
    }
}

proof fn lemma_escaped_parts(a: Seq<char>, b: Seq<char>)
    ensures
        escaped(a + b) == escaped(a) + escaped(b),
    decreases b.len(),
{
    let s = a + b;
    if b.len() == 0 {
        assert(s =~= a);
        assert(escaped(a) + escaped(b) =~= escaped(a));
    } else {
        assert(s.drop_last() =~= a + b.drop_last());
        lemma_escaped_parts(a, b.drop_last());
        assert(escaped(s) =~= escaped(a) + escaped(b));
    }
}

/// A check never installs; without one a forced update always does, and an
/// update that is not forced does exactly where there is a newer release. A check
/// tells whether there is one.
pub proof fn updates_install_what_is_newer(check: bool, force: bool, up_to_date: bool)
    ensures
        check ==> step_of(check, force, up_to_date) != UpdateStep::Install,
        check ==> (step_of(check, force, up_to_date) == UpdateStep::Available <==> !up_to_date),
        check ==> (step_of(check, force, up_to_date) == UpdateStep::UpToDate <==> up_to_date),
        !check && force ==> step_of(check, force, up_to_date) == UpdateStep::Install,
        !check && !force ==> (step_of(check, force, up_to_date) == UpdateStep::Install
            <==> !up_to_date),
        !check && !force && up_to_date ==> step_of(check, force, up_to_date)
            == UpdateStep::AlreadyCurrent,
{
}

/// The program in a release archive is called `ta`, in a directory with the
/// archive's name without its ending.
pub proof fn archives_hold_their_directory(name: Seq<char>)
    ensures
        path_in(name + ".tar.gz"@) == name + "/ta"@,
{
    let asset = name + ".tar.gz"@;
    let n = ".tar.gz"@.len();
    assert(asset.skip(asset.len() - n) =~= ".tar.gz"@);
    assert(asset.take(asset.len() - n) =~= name);
}

/// Where there is a prebuilt program, its target starts with the machine's
/// architecture and names its system; there is none for other systems.
pub proof fn targets_name_the_machine(os: Seq<char>, arch: Seq<char>)
    ensures
        target_of(os, arch) matches Some(t) ==> text::begins(t, arch) && (os == "linux"@ || os
            == "macos"@),
        os == "linux"@ ==> (target_of(os, arch) is Some <==> arch == "x86_64"@),
        os == "macos"@ ==> (target_of(os, arch) is Some <==> arch == "x86_64"@ || arch
            == "aarch64"@),
{
    reveal_strlit("linux");
    reveal_strlit("macos");
    reveal_strlit("x86_64");
    reveal_strlit("aarch64");
    reveal_strlit("x86_64-unknown-linux-musl");
    reveal_strlit("x86_64-apple-darwin");
    reveal_strlit("aarch64-apple-darwin");
    assert("x86_64-unknown-linux-musl"@.take(6) =~= "x86_64"@);
    assert("x86_64-apple-darwin"@.take(6) =~= "x86_64"@);
    assert("aarch64-apple-darwin"@.take(7) =~= "aarch64"@);
    assert("linux"@[0] != "macos"@[0]);
}

/// What an update says: which release runs and which is the latest, as the step
/// has it.
pub proof fn updates_say_both_releases(current: Seq<char>, latest: Seq<char>)
    ensures
        update_text(UpdateStep::UpToDate, current, latest) == "up to date - "@ + latest
            + " is the latest release"@,
        update_text(UpdateStep::Available, current, latest) == "update available: "@ + current
            + " -> "@ + latest + " (run `ta self-update`)"@,
        update_text(UpdateStep::AlreadyCurrent, current, latest) == "already up to date ("@ + current
            + "); use --force to reinstall"@,
        update_text(UpdateStep::Install, current, latest) == "updating "@ + current + " -> "@ + latest
            + " ..."@,
{
}

} // verus!
