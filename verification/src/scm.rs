//! The repository around a store: finding it, and keeping the log safe from a
//! plain text merge.

use crate::strmap::{self, Data};
use crate::text;
use vstd::prelude::*;

verus! {

/// The merge driver of the log.
pub const LOG_DRIVER: &'static str = "taska-merge-driver";

/// The merge driver of the baseline.
pub const BASELINE_DRIVER: &'static str = "taska-baseline-keep-ours";

/// The log.
pub const MUTATIONS_PATH: &'static str = ".taska/mutations.jsonl";

/// The baseline.
pub const BASELINE_PATH: &'static str = ".taska/baseline.jsonl";

/// A kind of repository.
#[derive(Clone, Copy, Debug, PartialEq, Eq, Structural)]
pub enum Scm {
    Git,
    Mercurial,
}

/// The nearest repository, walking up: `levels` says of each directory, the
/// first one first, whether it holds a git and a mercurial repository.
pub open spec fn nearest(levels: Seq<(bool, bool)>) -> Option<(Scm, int)>
    decreases levels.len(),
{
    if levels.len() == 0 {
        None
    } else {
        match nearest(levels.drop_last()) {
            Some(f) => Some(f),
            None => if levels.last().0 {
                Some((Scm::Git, levels.len() - 1))
            } else if levels.last().1 {
                Some((Scm::Mercurial, levels.len() - 1))
            } else {
                None
            },
        }
    }
}

/// The nearest repository and how many levels up it is.
pub fn detect_scm(levels: &Vec<(bool, bool)>) -> (r: Option<(Scm, usize)>)
    ensures
        match r {
            Some((scm, n)) => n < levels.len() && nearest(levels@) == Some((scm, n as int)),
            None => nearest(levels@) is None,
        },
{
    let mut i: usize = 0;
    let mut found: Option<(Scm, usize)> = None;
    assert(levels@.take(0) =~= Seq::empty());
    while i < levels.len()
        invariant
            i <= levels.len(),
            match found {
                Some((scm, n)) => n < i && nearest(levels@.take(i as int)) == Some((scm, n as int)),
                None => nearest(levels@.take(i as int)) is None,
            },
        decreases levels.len() - i,
    {
        let ghost longer = levels@.take(i as int + 1);
        assert(longer.drop_last() =~= levels@.take(i as int));
        if found.is_none() {
            if levels[i].0 {
                found = Some((Scm::Git, i));
            } else if levels[i].1 {
                found = Some((Scm::Mercurial, i));
            }
        }
        i += 1;
    }
    assert(levels@.take(levels@.len() as int) =~= levels@);
    found
}

/// How many levels up the repository is, if there is one: a new store goes
/// there.
pub fn scm_root(levels: &Vec<(bool, bool)>) -> (r: Option<usize>)
    ensures
        match r {
            Some(n) => nearest(levels@) matches Some(f) && f.1 == n,
            None => nearest(levels@) is None,
        },
{
    match detect_scm(levels) {
        Some((_, n)) => Some(n),
        None => None,
    }
}

/// The attribute line that gives `file` the driver.
pub open spec fn attribute(file: Seq<char>, driver: Seq<char>) -> Seq<char> {
    file + " merge="@ + driver
}

/// The attribute line that gives `file` the driver.
pub fn attribute_line(file: &str, driver: &str) -> (r: String)
    ensures
        r@ == attribute(file@, driver@),
{
    text::cat3(file, " merge=", driver)
}

/// Whether a line of `attrs` is `line`, blanks around it aside.
pub open spec fn has_line(attrs: Seq<char>, line: Seq<char>) -> bool {
    exists|i: int|
        0 <= i < text::lines_of(attrs).len() && text::trimmed(#[trigger] text::lines_of(attrs)[i])
            == line
}

fn holds_line(attrs: &str, line: &str) -> (r: bool)
    ensures
        r == has_line(attrs@, line@),
{
    let all = text::lines(attrs);
    let ghost parts = text::lines_of(attrs@);
    let mut i: usize = 0;
    while i < all.len()
        invariant
            i <= all.len(),
            parts == all.deep_view(),
            parts == text::lines_of(attrs@),
            forall|k: int| 0 <= k < i ==> text::trimmed(#[trigger] parts[k]) != line@,
        decreases all.len() - i,
    {
        assert(parts[i as int] == all@[i as int]@);
        if text::same_text(text::trim(all[i].as_str()).as_str(), line) {
            assert(text::trimmed(parts[i as int]) == line@);
            return true;
        }
        i += 1;
    }
    false
}

/// What to add to the attributes so that `file` has the driver: nothing if the
/// line is there, else the line, after a line break where one is missing.
pub open spec fn addition(
    attrs: Seq<char>,
    file: Seq<char>,
    driver: Seq<char>,
) -> Option<Seq<char>> {
    let line = attribute(file, driver);
    if has_line(attrs, line) {
        None
    } else if attrs.len() > 0 && attrs.last() != '\n' {
        Some("\n"@ + line + "\n"@)
    } else {
        Some(line + "\n"@)
    }
}

/// What to add to the attributes so that `file` has the driver.
pub fn ensure_gitattribute(attrs: &str, file: &str, driver: &str) -> (r: Option<String>)
    ensures
        r.deep_view() == addition(attrs@, file@, driver@),
{
    let line = attribute_line(file, driver);
    if holds_line(attrs, line.as_str()) {
        return None;
    }
    let v = text::chars_of(attrs);
    if v.len() > 0 && v[v.len() - 1] != '\n' {
        Some(text::cat3("\n", line.as_str(), "\n"))
    } else {
        Some(text::cat2(line.as_str(), "\n"))
    }
}

/// Adding the line once is enough: afterwards there is nothing to add. The line
/// may hold no line break and no blank at either end.
pub proof fn adding_once_is_enough(attrs: Seq<char>, file: Seq<char>, driver: Seq<char>)
    requires
        !attribute(file, driver).contains('\n'),
        text::trimmed(attribute(file, driver)) == attribute(file, driver),
    ensures
        addition(attrs, file, driver) matches Some(more) ==> addition(
            attrs + more,
            file,
            driver,
        ) is None,
{
    let line = attribute(file, driver);
    if let Some(more) = addition(attrs, file, driver) {
        reveal_strlit("\n");
        let none = Seq::<char>::empty();
        let front = if attrs.len() > 0 && attrs.last() != '\n' {
            attrs
        } else if attrs.len() > 0 {
            attrs.drop_last()
        } else {
            attrs
        };
        text::split_whole(line, '\n');
        text::split_whole(none, '\n');
        text::split_parts(line, none, '\n');
        text::trimmed_end_is_bare(text::trimmed_start(line));
        let tail = line + seq!['\n'] + none;
        let parts = text::split_at(tail, '\n');
        assert(parts =~= seq![line, none]);
        let whole = text::split_at(attrs + more, '\n');
        let n = whole.len() - 2;
        if attrs.len() > 0 {
            text::split_parts(front, tail, '\n');
            assert(attrs + more =~= front + seq!['\n'] + tail);
            assert(whole =~= text::split_at(front, '\n') + parts);
        } else {
            assert(attrs + more =~= tail);
        }
        assert(whole[n] == line);
        assert(text::uncarried(line) == line);
        let found = text::lines_of(attrs + more);
        assert(found[n] == line);
        assert(text::trimmed(found[n]) == line);
    }
}

/// What a check of the merge protection leads to.
pub enum HealthStep {
    /// Nothing is wrong.
    Fine,
    Warn(String),
    /// The drivers have to be registered in this clone.
    Register,
}

/// Whether the attributes give both files their drivers.
pub open spec fn declared(attrs: Seq<char>) -> bool {
    has_line(attrs, attribute(MUTATIONS_PATH@, LOG_DRIVER@)) && has_line(
        attrs,
        attribute(BASELINE_PATH@, BASELINE_DRIVER@),
    )
}

/// Checks the merge protection of a clone: without a repository there is
/// nothing to protect, mercurial is not supported, and git needs the attributes,
/// which only a set-up writes, and the drivers, which can be registered here.
pub fn ensure_scm_health(found: Option<Scm>, attrs: &str, registered: bool) -> (r: HealthStep)
    ensures
        match r {
            HealthStep::Fine => found is None || (found == Some(Scm::Git) && declared(attrs@)
                && registered),
            HealthStep::Register => found == Some(Scm::Git) && declared(attrs@) && !registered,
            HealthStep::Warn(m) => {
                ||| found == Some(Scm::Mercurial) && m@
                    == "mercurial repository detected; taska's merge protection currently supports only git - merging concurrent .taska edits in hg can corrupt the task log"@
                ||| found == Some(Scm::Git) && !declared(attrs@) && m@
                    == ".gitattributes is missing the .taska merge-driver entries; run `ta init` to restore them (without them, a git merge can corrupt the task log)"@
            },
        },
{
    match found {
        None => HealthStep::Fine,
        Some(Scm::Mercurial) => HealthStep::Warn(
            String::from_str(
                "mercurial repository detected; taska's merge protection currently supports only git - merging concurrent .taska edits in hg can corrupt the task log",
            ),
        ),
        Some(Scm::Git) => {
            let log = attribute_line(MUTATIONS_PATH, LOG_DRIVER);
            let baseline = attribute_line(BASELINE_PATH, BASELINE_DRIVER);
            if !holds_line(attrs, log.as_str()) || !holds_line(attrs, baseline.as_str()) {
                return HealthStep::Warn(
                    String::from_str(
                        ".gitattributes is missing the .taska merge-driver entries; run `ta init` to restore them (without them, a git merge can corrupt the task log)",
                    ),
                );
            }
            if registered {
                HealthStep::Fine
            } else {
                HealthStep::Register
            }
        },
    }
}

/// What is said where a new store's drivers are registered.
pub const CONFIGURED: &'static str = "Configured git merge drivers for the taska event log";

/// What is said where a new store's drivers could not be registered.
pub const UNCONFIGURED: &'static str = "git merge drivers not configured (not a git repository?); run `git init`, then `ta init` again to enable safe .taska merges";

/// What is said where the drivers of a clone could not be registered.
pub const UNREGISTERED: &'static str = "git merge drivers for .taska could not be auto-registered in this clone; run `ta init` to set them up (without them, a git merge can corrupt the task log)";

/// Whether a line of git's configuration sets the driver.
pub open spec fn defines(listing: Seq<char>, driver: Seq<char>) -> bool {
    exists|i: int|
        0 <= i < text::lines_of(listing).len() && text::begins(
            #[trigger] text::lines_of(listing)[i],
            "merge."@ + driver + ".driver "@,
        )
}

fn sets_driver(listing: &str, driver: &str) -> (r: bool)
    ensures
        r == defines(listing@, driver@),
{
    let key = text::cat3("merge.", driver, ".driver ");
    let all = text::lines(listing);
    let ghost parts = text::lines_of(listing@);
    let mut i: usize = 0;
    while i < all.len()
        invariant
            i <= all.len(),
            parts == all.deep_view(),
            parts == text::lines_of(listing@),
            key@ == "merge."@ + driver@ + ".driver "@,
            forall|k: int| 0 <= k < i ==> !text::begins(#[trigger] parts[k], key@),
        decreases all.len() - i,
    {
        assert(parts[i as int] == all@[i as int]@);
        let v = text::chars_of(all[i].as_str());
        if text::starts_with(&v, key.as_str()) {
            assert(text::begins(parts[i as int], key@));
            return true;
        }
        i += 1;
    }
    false
}

/// Whether git's configuration sets both drivers; a failed listing sets none.
pub fn drivers_registered(listing: &str, success: bool) -> (r: bool)
    ensures
        r == (success && defines(listing@, LOG_DRIVER@) && defines(listing@, BASELINE_DRIVER@)),
{
    success && sets_driver(listing, LOG_DRIVER) && sets_driver(listing, BASELINE_DRIVER)
}

/// The paths that git does not ignore, in order.
pub open spec fn tracked_paths(paths: Seq<Seq<char>>, ignored: Seq<Seq<char>>) -> Seq<Seq<char>>
    decreases paths.len(),
{
    if paths.len() == 0 {
        Seq::empty()
    } else {
        let rest = tracked_paths(paths.drop_last(), ignored);
        if ignored.contains(paths.last()) {
            rest
        } else {
            rest.push(paths.last())
        }
    }
}

/// The paths that can be committed: those that `listing`, git's list of ignored
/// ones, does not name.
pub fn committable(paths: &Vec<String>, listing: &str) -> (r: Vec<String>)
    ensures
        r.deep_view() == tracked_paths(paths.deep_view(), text::lines_of(listing@)),
{
    let ignored = text::lines(listing);
    let ghost all = paths.deep_view();
    let mut out: Vec<String> = Vec::new();
    let mut i: usize = 0;
    assert(all.take(0) =~= Seq::empty());
    assert(out.deep_view() =~= Seq::empty());
    while i < paths.len()
        invariant
            i <= paths.len(),
            all == paths.deep_view(),
            ignored.deep_view() == text::lines_of(listing@),
            out.deep_view() == tracked_paths(all.take(i as int), text::lines_of(listing@)),
        decreases paths.len() - i,
    {
        let ghost longer = all.take(i as int + 1);
        assert(longer.drop_last() =~= all.take(i as int));
        assert(longer.last() == paths@[i as int]@);
        if !crate::engine::contains_text(&ignored, paths[i].as_str()) {
            let ghost had = out.deep_view();
            out.push(paths[i].clone());
            assert(out.deep_view() =~= had.push(paths@[i as int]@));
        }
        i += 1;
    }
    assert(all.take(all.len() as int) =~= all);
    out
}

/// The directory a command line names.
pub enum Directory {
    /// The argument at this place.
    At(usize),
    Inline(String),
}

/// The model of [`Directory`].
pub enum DirectoryV {
    At(int),
    Inline(Seq<char>),
}

impl DeepView for Directory {
    type V = DirectoryV;

    open spec fn deep_view(&self) -> DirectoryV {
        match self {
            Directory::At(i) => DirectoryV::At(*i as int),
            Directory::Inline(s) => DirectoryV::Inline(s@),
        }
    }
}

/// The directory that the arguments from the `i`th on name, `dir` being what
/// those before named; the last one counts.
pub open spec fn directory_from(args: Seq<Seq<char>>, i: int, dir: Option<DirectoryV>) -> Option<
    DirectoryV,
>
    decreases args.len() - i,
{
    if i < 0 || i >= args.len() {
        dir
    } else {
        let a = args[i];
        if a == "-C"@ || a == "--directory"@ {
            if i + 1 < args.len() {
                directory_from(args, i + 2, Some(DirectoryV::At(i + 1)))
            } else {
                None
            }
        } else if text::begins(a, "--directory="@) {
            directory_from(
                args,
                i + 1,
                Some(DirectoryV::Inline(a.skip("--directory="@.len() as int))),
            )
        } else if text::begins(a, "-C"@) {
            let rest = a.skip("-C"@.len() as int);
            let plain = if rest.len() > 0 && rest[0] == '=' { rest.skip(1) } else { rest };
            directory_from(args, i + 1, Some(DirectoryV::Inline(plain)))
        } else {
            directory_from(args, i + 1, dir)
        }
    }
}

/// The directory the arguments name, in any of the forms `-C x`, `-Cx`, `-C=x`,
/// `--directory x` and `--directory=x`. An argument that is not text is given as
/// an empty one.
pub fn directory_flag(args: &Vec<String>) -> (r: Option<Directory>)
    ensures
        r.deep_view() == directory_from(args.deep_view(), 0, None),
{
    let ghost all = args.deep_view();
    let mut dir: Option<Directory> = None;
    let mut i: usize = 0;
    while i < args.len()
        invariant
            i <= args.len(),
            all == args.deep_view(),
            directory_from(all, 0, None) == directory_from(all, i as int, dir.deep_view()),
        decreases args.len() - i,
    {
        let a = args[i].as_str();
        assert(all[i as int] == a@);
        let v = text::chars_of(a);
        if text::same_text(a, "-C") || text::same_text(a, "--directory") {
            if i + 1 < args.len() {
                dir = Some(Directory::At(i + 1));
                i += 2;
            } else {
                dir = None;
                i += 1;
            }
        } else if text::starts_with(&v, "--directory=") {
            let n = text::chars_of("--directory=").len();
            let rest = text::text_of(&v, n, v.len());
            assert(rest@ =~= a@.skip(n as int));
            dir = Some(Directory::Inline(rest));
            i += 1;
        } else if text::starts_with(&v, "-C") {
            let n = text::chars_of("-C").len();
            let from = if n < v.len() && v[n] == '=' { n + 1 } else { n };
            let rest = text::text_of(&v, from, v.len());
            proof {
                let tail = a@.skip(n as int);
                let plain = if tail.len() > 0 && tail[0] == '=' { tail.skip(1) } else { tail };
                assert(rest@ =~= plain);
            }
            dir = Some(Directory::Inline(rest));
            i += 1;
        } else {
            i += 1;
        }
    }
    dir
}

/// What a run of git came to: its exit code, if it ended by itself, and what
/// it printed.
pub struct Ran {
    pub code: Option<i32>,
    pub out: String,
}

impl Ran {
    /// Whether it succeeded.
    pub open spec fn succeeded(&self) -> bool {
        self.code == Some(0i32)
    }

    fn ok(&self) -> (r: bool)
        ensures
            r == self.succeeded(),
    {
        match self.code {
            Some(c) => c == 0,
            None => false,
        }
    }
}

/// How far a commit is: what git was last asked.
#[derive(Clone, Copy, Debug, PartialEq, Eq, Structural)]
pub enum CommitStage {
    /// Which of the paths it ignores.
    Ignored,
    /// To stage them.
    Staged,
    /// Whether they differ from what is committed.
    Compared,
    /// To commit them.
    Committed,
    /// What the commit is called.
    Named,
}

/// What is done next for a commit.
pub enum CommitStep {
    /// Run git with these words.
    Run { words: Vec<String>, paths: Vec<String>, stage: CommitStage },
    /// It is over; the name of the commit, if there is one.
    Done(Option<String>),
}

/// The words of git for `paths` behind `lead`.
pub open spec fn scoped(lead: Seq<Seq<char>>, paths: Seq<Seq<char>>) -> Seq<Seq<char>> {
    lead + seq!["--"@] + paths
}

fn scope(lead: Vec<String>, paths: &Vec<String>) -> (r: Vec<String>)
    ensures
        r.deep_view() == scoped(lead.deep_view(), paths.deep_view()),
{
    let ghost first = lead.deep_view();
    let mut out = lead;
    out.push(String::from_str("--"));
    assert(out.deep_view() =~= first + seq!["--"@]);
    text::extend(&mut out, paths.copy());
    out
}

/// Whether `step` runs git with `words` and leaves `paths` and `stage`.
pub open spec fn runs(
    step: CommitStep,
    words: Seq<Seq<char>>,
    paths: Seq<Seq<char>>,
    stage: CommitStage,
) -> bool {
    step matches CommitStep::Run { words: w, paths: p, stage: s } && w.deep_view() == words
        && p.deep_view() == paths && s == stage
}

/// Whether `step` is the end, without a commit.
pub open spec fn stops(step: CommitStep) -> bool {
    step matches CommitStep::Done(name) && name is None
}

/// The first step of a commit: to ask which of the paths git ignores. Without a
/// path there is nothing to commit.
pub fn commit_paths(paths: &Vec<String>) -> (r: CommitStep)
    ensures
        if paths.len() == 0 {
            stops(r)
        } else {
            runs(
                r,
                scoped(seq!["check-ignore"@], paths.deep_view()),
                paths.deep_view(),
                CommitStage::Ignored,
            )
        },
{
    if paths.len() == 0 {
        return CommitStep::Done(None);
    }
    let mut lead: Vec<String> = Vec::new();
    lead.push(String::from_str("check-ignore"));
    assert(lead.deep_view() =~= seq!["check-ignore"@]);
    CommitStep::Run {
        words: scope(lead, paths),
        paths: paths.copy(),
        stage: CommitStage::Ignored,
    }
}

/// The paths that are left once git has named the ignored ones; where it names
/// none, or cannot tell, all of them.
pub open spec fn left_to_commit(paths: Seq<Seq<char>>, ran: Option<Ran>) -> Seq<Seq<char>> {
    match ran {
        Some(o) => if o.succeeded() {
            tracked_paths(paths, text::lines_of(o.out@))
        } else {
            paths
        },
        None => paths,
    }
}

/// The step of a commit after `stage`: `ran` is what git came to, none if it
/// could not be run. What cannot be committed ends the commit quietly, and so
/// does a lack of changes.
pub fn commit_step(
    stage: CommitStage,
    paths: &Vec<String>,
    message: &str,
    ran: &Option<Ran>,
) -> (r: CommitStep)
    ensures
        ({
            let all = paths.deep_view();
            let worked = *ran matches Some(o) && o.succeeded();
            match stage {
                CommitStage::Ignored => {
                    let left = left_to_commit(all, *ran);
                    if left.len() == 0 {
                        stops(r)
                    } else {
                        runs(r, scoped(seq!["add"@], left), left, CommitStage::Staged)
                    }
                },
                CommitStage::Staged => if worked {
                    runs(
                        r,
                        scoped(seq!["diff"@, "--cached"@, "--quiet"@], all),
                        all,
                        CommitStage::Compared,
                    )
                } else {
                    stops(r)
                },
                CommitStage::Compared => if *ran is None || worked {
                    stops(r)
                } else {
                    runs(
                        r,
                        scoped(seq!["commit"@, "-m"@, message@], all),
                        all,
                        CommitStage::Committed,
                    )
                },
                CommitStage::Committed => if worked {
                    runs(r, seq!["rev-parse"@, "--short"@, "HEAD"@], all, CommitStage::Named)
                } else {
                    stops(r)
                },
                CommitStage::Named => if worked {
                    r matches CommitStep::Done(Some(name)) && name@ == text::trimmed(ran->0.out@)
                } else {
                    stops(r)
                },
            }
        }),
{
    let worked = match ran {
        Some(o) => o.ok(),
        None => false,
    };
    match stage {
        CommitStage::Ignored => {
            let left = match ran {
                Some(o) => if o.ok() {
                    committable(paths, o.out.as_str())
                } else {
                    paths.copy()
                },
                None => paths.copy(),
            };
            assert(left.deep_view().len() == left.len());
            if left.len() == 0 {
                return CommitStep::Done(None);
            }
            let mut lead: Vec<String> = Vec::new();
            lead.push(String::from_str("add"));
            assert(lead.deep_view() =~= seq!["add"@]);
            CommitStep::Run { words: scope(lead, &left), paths: left, stage: CommitStage::Staged }
        },
        CommitStage::Staged => {
            if !worked {
                return CommitStep::Done(None);
            }
            let lead = three("diff", "--cached", "--quiet");
            CommitStep::Run {
                words: scope(lead, paths),
                paths: paths.copy(),
                stage: CommitStage::Compared,
            }
        },
        CommitStage::Compared => {
            if worked || ran.is_none() {
                return CommitStep::Done(None);
            }
            let lead = three("commit", "-m", message);
            CommitStep::Run {
                words: scope(lead, paths),
                paths: paths.copy(),
                stage: CommitStage::Committed,
            }
        },
        CommitStage::Committed => {
            if !worked {
                return CommitStep::Done(None);
            }
            CommitStep::Run {
                words: three("rev-parse", "--short", "HEAD"),
                paths: paths.copy(),
                stage: CommitStage::Named,
            }
        },
        CommitStage::Named => match ran {
            Some(o) => if o.ok() {
                CommitStep::Done(Some(text::trim(o.out.as_str())))
            } else {
                CommitStep::Done(None)
            },
            None => CommitStep::Done(None),
        },
    }
}

fn three(a: &str, b: &str, c: &str) -> (r: Vec<String>)
    ensures
        r.deep_view() == seq![a@, b@, c@],
{
    let mut out: Vec<String> = Vec::new();
    out.push(String::from_str(a));
    out.push(String::from_str(b));
    out.push(String::from_str(c));
    assert(out.deep_view() =~= seq![a@, b@, c@]);
    out
}

/// Only paths that were asked for are committed, and none that git ignores.
pub proof fn only_tracked_paths_are_committed(paths: Seq<Seq<char>>, ran: Option<Ran>)
    ensures
        forall|p: Seq<char>| #[trigger]
            left_to_commit(paths, ran).contains(p) ==> paths.contains(p),
        ran matches Some(o) ==> o.succeeded() ==> forall|p: Seq<char>| #[trigger]
            left_to_commit(paths, ran).contains(p) ==> !text::lines_of(o.out@).contains(p),
{
    if let Some(o) = ran {
        if o.succeeded() {
            tracked_paths_are_kept(paths, text::lines_of(o.out@));
        }
    }
}

proof fn tracked_paths_are_kept(paths: Seq<Seq<char>>, ignored: Seq<Seq<char>>)
    ensures
        forall|p: Seq<char>| #[trigger]
            tracked_paths(paths, ignored).contains(p) ==> paths.contains(p) && !ignored.contains(p),
    decreases paths.len(),
{
    if paths.len() > 0 {
        let shorter = paths.drop_last();
        tracked_paths_are_kept(shorter, ignored);
        let rest = tracked_paths(shorter, ignored);
        assert forall|p: Seq<char>| #[trigger] tracked_paths(paths, ignored).contains(p) implies
            paths.contains(p) && !ignored.contains(p) by {
            let all = tracked_paths(paths, ignored);
            let i = choose|i: int| 0 <= i < all.len() && all[i] == p;
            if i < rest.len() {
                assert(rest[i] == p);
                assert(rest.contains(p));
                assert(shorter.contains(p));
                let j = choose|j: int| 0 <= j < shorter.len() && shorter[j] == p;
                assert(paths[j] == p);
            } else {
                assert(paths[paths.len() - 1] == p);
            }
        }
    }
}

/// What git's configuration holds for one merge driver: the keys and the
/// values.
pub open spec fn driver_pairs(
    driver: Seq<char>,
    title: Seq<char>,
    command: Seq<char>,
) -> Seq<(Seq<char>, Seq<char>)> {
    seq![
        ("merge."@ + driver + ".name"@, title),
        ("merge."@ + driver + ".driver"@, command),
    ]
}

/// What registering the merge drivers sets in git's configuration.
pub fn driver_settings() -> (r: Vec<(String, String)>)
    ensures
        r.deep_view() == driver_pairs(
            LOG_DRIVER@,
            "Taska Auto-Resolution Log Consolidation Driver"@,
            "ta git-merge %O %A %B %P"@,
        ) + driver_pairs(
            BASELINE_DRIVER@,
            "Taska Baseline Keep-Ours Driver"@,
            "ta git-merge-baseline %O %A %B %P"@,
        ),
{
    let mut out: Vec<(String, String)> = Vec::new();
    out.push(
        (
            text::cat3("merge.", LOG_DRIVER, ".name"),
            String::from_str("Taska Auto-Resolution Log Consolidation Driver"),
        ),
    );
    out.push(
        (
            text::cat3("merge.", LOG_DRIVER, ".driver"),
            String::from_str("ta git-merge %O %A %B %P"),
        ),
    );
    out.push(
        (
            text::cat3("merge.", BASELINE_DRIVER, ".name"),
            String::from_str("Taska Baseline Keep-Ours Driver"),
        ),
    );
    out.push(
        (
            text::cat3("merge.", BASELINE_DRIVER, ".driver"),
            String::from_str("ta git-merge-baseline %O %A %B %P"),
        ),
    );
    assert(out.deep_view() =~= driver_pairs(
        LOG_DRIVER@,
        "Taska Auto-Resolution Log Consolidation Driver"@,
        "ta git-merge %O %A %B %P"@,
    ) + driver_pairs(
        BASELINE_DRIVER@,
        "Taska Baseline Keep-Ours Driver"@,
        "ta git-merge-baseline %O %A %B %P"@,
    ));
    out
}

/// The repository around a directory is the nearest one: of the levels from the
/// directory up, the first with one. Where a level has both, it is git's.
pub proof fn the_nearest_repository_counts(levels: Seq<(bool, bool)>, n: int)
    requires
        0 <= n < levels.len(),
        levels[n].0 || levels[n].1,
        forall|i: int| 0 <= i < n ==> !(#[trigger] levels[i]).0 && !levels[i].1,
    ensures
        nearest(levels) == Some(
            (
                if levels[n].0 {
                    Scm::Git
                } else {
                    Scm::Mercurial
                },
                n,
            ),
        ),
    decreases levels.len(),
{
    let rest = levels.drop_last();
    if n < rest.len() {
        assert forall|i: int| 0 <= i < n implies !(#[trigger] rest[i]).0 && !rest[i].1 by {
            assert(rest[i] == levels[i]);
        }
        the_nearest_repository_counts(rest, n);
    } else {
        assert forall|i: int| 0 <= i < rest.len() implies !(#[trigger] rest[i]).0 && !rest[i].1 by {
            assert(rest[i] == levels[i]);
        }
        no_repository_is_none(rest);
    }
}

/// Without a repository on any level there is none.
pub proof fn no_repository_is_none(levels: Seq<(bool, bool)>)
    requires
        forall|i: int| 0 <= i < levels.len() ==> !(#[trigger] levels[i]).0 && !levels[i].1,
    ensures
        nearest(levels) is None,
    decreases levels.len(),
{
    if levels.len() > 0 {
        let rest = levels.drop_last();
        assert forall|i: int| 0 <= i < rest.len() implies !(#[trigger] rest[i]).0 && !rest[i].1 by {
            assert(rest[i] == levels[i]);
        }
        no_repository_is_none(rest);
        assert(levels[levels.len() - 1] == levels.last());
    }
}

/// Of the paths those are committed that are not ignored.
pub proof fn ignored_paths_are_left_out(
    paths: Seq<Seq<char>>,
    ignored: Seq<Seq<char>>,
    x: Seq<char>,
)
    ensures
        tracked_paths(paths, ignored).contains(x) <==> paths.contains(x) && !ignored.contains(x),
    decreases paths.len(),
{
    if paths.len() > 0 {
        let rest = paths.drop_last();
        ignored_paths_are_left_out(rest, ignored, x);
        let all = tracked_paths(paths, ignored);
        strmap::lemma_contains_last(paths, x);
        if !ignored.contains(paths.last()) {
            assert(all.drop_last() =~= tracked_paths(rest, ignored));
            strmap::lemma_contains_last(all, x);
        }
    }
}

/// Whether an argument does not name a directory.
pub open spec fn no_directory(a: Seq<char>) -> bool {
    !text::begins(a, "-C"@) && !text::begins(a, "--directory="@) && a != "--directory"@
}

proof fn lemma_no_directory(args: Seq<Seq<char>>, i: int, dir: Option<DirectoryV>)
    requires
        0 <= i <= args.len(),
        forall|k: int| i <= k < args.len() ==> no_directory(#[trigger] args[k]),
    ensures
        directory_from(args, i, dir) == dir,
    decreases args.len() - i,
{
    if i < args.len() {
        assert(no_directory(args[i]));
        assert("-C"@.take("-C"@.len() as int) =~= "-C"@);
        lemma_no_directory(args, i + 1, dir);
    }
}

proof fn lemma_skip_plain(args: Seq<Seq<char>>, i: int, n: int, dir: Option<DirectoryV>)
    requires
        0 <= i <= n <= args.len(),
        forall|k: int| i <= k < n ==> no_directory(#[trigger] args[k]),
    ensures
        directory_from(args, i, dir) == directory_from(args, n, dir),
    decreases n - i,
{
    if i < n {
        assert(no_directory(args[i]));
        assert("-C"@.take("-C"@.len() as int) =~= "-C"@);
        lemma_skip_plain(args, i + 1, n, dir);
    }
}

/// The directory that arguments name: after `-C` or `--directory` the next
/// argument, and after `--directory=` the rest of it. Without a next argument,
/// and without any of these, there is none.
pub proof fn directories_are_named(args: Seq<Seq<char>>, n: int)
    requires
        0 <= n < args.len(),
        forall|k: int| 0 <= k < n ==> no_directory(#[trigger] args[k]),
        forall|k: int| n + 2 <= k < args.len() ==> no_directory(#[trigger] args[k]),
    ensures
        args[n] == "-C"@ || args[n] == "--directory"@ ==> directory_from(args, 0, None)
            == if n + 1 < args.len() {
            Some(DirectoryV::At(n + 1))
        } else {
            None
        },
        text::begins(args[n], "--directory="@) && (n + 1 < args.len() ==> no_directory(args[n + 1]))
            ==> directory_from(args, 0, None) == Some(
            DirectoryV::Inline(args[n].skip("--directory="@.len() as int)),
        ),
        no_directory(args[n]) && (n + 1 < args.len() ==> no_directory(args[n + 1]))
            ==> directory_from(args, 0, None) is None,
{
    reveal_strlit("-C");
    reveal_strlit("--directory");
    reveal_strlit("--directory=");
    lemma_skip_plain(args, 0, n, None);
    if args[n] == "-C"@ || args[n] == "--directory"@ {
        if n + 1 < args.len() {
            lemma_no_directory(args, n + 2, Some(DirectoryV::At(n + 1)));
        }
    } else if text::begins(args[n], "--directory="@) && (n + 1 < args.len() ==> no_directory(
        args[n + 1],
    )) {
        lemma_no_directory(
            args,
            n + 1,
            Some(DirectoryV::Inline(args[n].skip("--directory="@.len() as int))),
        );
    }
    if no_directory(args[n]) && (n + 1 < args.len() ==> no_directory(args[n + 1])) {
        lemma_no_directory(args, n, None);
    }
    assert("-C"@.len() == 2 && "--directory"@.len() == 11 && "--directory="@.len() == 12);
}

/// The drivers count as registered once the settings for them are listed, and not
/// where either is missing or the listing failed.
pub proof fn settings_register_the_drivers(
    pairs: Vec<(String, String)>,
    listing: &str,
    r: bool,
    failed: bool,
)
    requires
        call_ensures(driver_settings, (), pairs),
        call_ensures(drivers_registered, (listing, true), r),
        call_ensures(drivers_registered, (listing, false), failed),
    ensures
        (forall|i: int|
            0 <= i < pairs.deep_view().len() ==> text::lines_of(listing@).contains(
                (#[trigger] pairs.deep_view()[i]).0 + " "@ + pairs.deep_view()[i].1,
            )) ==> r,
        (forall|i: int|
            0 <= i < text::lines_of(listing@).len() ==> !text::begins(
                #[trigger] text::lines_of(listing@)[i],
                "merge."@ + LOG_DRIVER@,
            )) ==> !r,
        (forall|i: int|
            0 <= i < text::lines_of(listing@).len() ==> !text::begins(
                #[trigger] text::lines_of(listing@)[i],
                "merge."@ + BASELINE_DRIVER@,
            )) ==> !r,
        !failed,
{
    reveal_strlit(".driver ");
    reveal_strlit(".driver");
    reveal_strlit(" ");
    assert(".driver "@ =~= ".driver"@ + " "@);
    let all = text::lines_of(listing@);
    let said = pairs.deep_view();
    if forall|i: int|
        0 <= i < said.len() ==> all.contains((#[trigger] said[i]).0 + " "@ + said[i].1) {
        let a = said[1].0 + " "@ + said[1].1;
        let b = said[3].0 + " "@ + said[3].1;
        assert(all.contains(a) && all.contains(b));
        let i = choose|i: int| 0 <= i < all.len() && all[i] == a;
        let j = choose|j: int| 0 <= j < all.len() && all[j] == b;
        let la = "merge."@ + LOG_DRIVER@ + ".driver "@;
        let lb = "merge."@ + BASELINE_DRIVER@ + ".driver "@;
        assert(a.take(la.len() as int) =~= la);
        assert(b.take(lb.len() as int) =~= lb);
        assert(text::begins(all[i], la));
        assert(text::begins(all[j], lb));
    }
    if defines(listing@, LOG_DRIVER@) {
        let la = "merge."@ + LOG_DRIVER@ + ".driver "@;
        let sa = "merge."@ + LOG_DRIVER@;
        let i = choose|i: int| 0 <= i < all.len() && text::begins(#[trigger] all[i], la);
        assert(all[i].take(sa.len() as int) =~= la.take(sa.len() as int));
        assert(la.take(sa.len() as int) =~= sa);
        assert(text::begins(all[i], sa));
    }
    if defines(listing@, BASELINE_DRIVER@) {
        let lb = "merge."@ + BASELINE_DRIVER@ + ".driver "@;
        let sb = "merge."@ + BASELINE_DRIVER@;
        let i = choose|i: int| 0 <= i < all.len() && text::begins(#[trigger] all[i], lb);
        assert(all[i].take(sb.len() as int) =~= lb.take(sb.len() as int));
        assert(lb.take(sb.len() as int) =~= sb);
        assert(text::begins(all[i], sb));
    }
}

/// Adding the two lines to the attributes makes them declared: after that there is
/// nothing to warn of in a git repository whose drivers are registered.
pub proof fn declared_drivers_are_fine(
    found: Option<Scm>,
    attrs: &str,
    registered: bool,
    r: HealthStep,
)
    requires
        call_ensures(ensure_scm_health, (found, attrs, registered), r),
    ensures
        found is None ==> r is Fine,
        found == Some(Scm::Mercurial) ==> r is Warn,
        found == Some(Scm::Git) ==> ({
            let added = addition(attrs@, MUTATIONS_PATH@, LOG_DRIVER@) is None && addition(
                attrs@,
                BASELINE_PATH@,
                BASELINE_DRIVER@,
            ) is None;
            &&& r is Warn <==> !added
            &&& r is Fine <==> added && registered
            &&& r is Register <==> added && !registered
        }),
{
}

/// A commit is made only of paths that are staged and differ from what is
/// committed: where staging fails, or nothing differs, or that cannot be told, it
/// ends without one. It is named only where it succeeded.
pub proof fn commits_are_of_changes(
    stage: CommitStage,
    paths: Vec<String>,
    message: &str,
    ran: Option<Ran>,
    r: CommitStep,
)
    requires
        call_ensures(commit_step, (stage, &paths, message, &ran), r),
    ensures
        ({
            let worked = ran is Some && ran->0.code == Some(0i32);
            let over = r is Done && r->Done_0 is None;
            &&& stage == CommitStage::Staged && !worked ==> over
            &&& stage == CommitStage::Staged && worked ==> r is Run && r->stage
                == CommitStage::Compared
            &&& stage == CommitStage::Compared && (worked || ran is None) ==> over
            &&& stage == CommitStage::Compared && ran is Some && !worked ==> r is Run && r->stage
                == CommitStage::Committed && r->words.deep_view() == seq![
                "commit"@,
                "-m"@,
                message@,
                "--"@,
            ] + paths.deep_view()
            &&& stage == CommitStage::Committed && !worked ==> over
            &&& r is Done && r->Done_0 is Some ==> stage == CommitStage::Named && worked
            &&& stage == CommitStage::Named && worked ==> r is Done && r->Done_0 is Some
                && r->Done_0->0@ == text::trimmed(ran->0.out@)
            &&& r is Run && stage != CommitStage::Ignored ==> r->paths.deep_view()
                == paths.deep_view()
        }),
{
    if stage == CommitStage::Compared && ran is Some && ran->0.code != Some(0i32) {
        assert(r->words.deep_view() =~= seq!["commit"@, "-m"@, message@, "--"@]
            + paths.deep_view());
    }
}

/// Each driver gets a title and a command: the one of the log merges it, that of
/// the baseline keeps one side.
pub proof fn drivers_have_titles_and_commands(pairs: Vec<(String, String)>)
    requires
        call_ensures(driver_settings, (), pairs),
    ensures
        pairs.deep_view().len() == 4,
        pairs.deep_view()[0].0 == "merge."@ + LOG_DRIVER@ + ".name"@,
        pairs.deep_view()[1] == ("merge."@ + LOG_DRIVER@ + ".driver"@, "ta git-merge %O %A %B %P"@),
        pairs.deep_view()[2].0 == "merge."@ + BASELINE_DRIVER@ + ".name"@,
        pairs.deep_view()[3] == (
            "merge."@ + BASELINE_DRIVER@ + ".driver"@,
            "ta git-merge-baseline %O %A %B %P"@,
        ),
{
}

} // verus!
