//! Version control, and the words that completion offers.

use taska::complete::{column_names, criteria, field_names, value_strings};
use taska::config::Config;
use taska::json::parse_json;
use taska::model::TaskState;
use taska::config::CompactionConfig;
use taska::gate::{check_gates, gates, CommandKind};
use taska::repair::{
    render_migrate, render_schema, repair_steps, RenameOutcome, RepairSteps, SchemaRepairReport,
};
use taska::scm::{
    commit_paths, commit_step, committable, detect_scm, directory_flag, driver_settings,
    drivers_registered, ensure_gitattribute, ensure_scm_health, scm_root, CommitStage, CommitStep,
    Directory, HealthStep, Ran, Scm, BASELINE_DRIVER, BASELINE_PATH, LOG_DRIVER, MUTATIONS_PATH,
};
use taska::strmap::StrMap;

#[test]
fn the_nearest_repository_is_found() {
    // Each level says whether it holds `.git`, and whether `.hg`.
    let levels = vec![(false, false), (true, false), (false, true)];
    assert!(matches!(detect_scm(&levels), Some((Scm::Git, 1))));
    assert_eq!(scm_root(&levels), Some(1));
    assert!(matches!(detect_scm(&vec![(false, true)]), Some((Scm::Mercurial, 0))));
    assert!(detect_scm(&vec![(false, false)]).is_none());
}

#[test]
fn attributes_are_added_once() {
    let tail = ensure_gitattribute("*.txt text", MUTATIONS_PATH, LOG_DRIVER).unwrap();
    assert_eq!(tail, "\n.taska/mutations.jsonl merge=taska-merge-driver\n");
    let file = format!("*.txt text{tail}");
    assert!(ensure_gitattribute(&file, MUTATIONS_PATH, LOG_DRIVER).is_none());
    let tail = ensure_gitattribute(&file, BASELINE_PATH, BASELINE_DRIVER).unwrap();
    assert_eq!(tail, ".taska/baseline.jsonl merge=taska-baseline-keep-ours\n");
    let file = format!("{file}{tail}");
    assert!(matches!(ensure_scm_health(Some(Scm::Git), &file, true), HealthStep::Fine));
    assert!(matches!(ensure_scm_health(Some(Scm::Git), &file, false), HealthStep::Register));
    assert!(matches!(ensure_scm_health(Some(Scm::Git), "", true), HealthStep::Warn(_)));
    assert!(matches!(ensure_scm_health(Some(Scm::Mercurial), "", true), HealthStep::Warn(_)));
    assert!(matches!(ensure_scm_health(None, "", false), HealthStep::Fine));
}

#[test]
fn registered_drivers_are_recognized() {
    let listing = format!(
        "merge.{LOG_DRIVER}.driver ta merge\nmerge.{BASELINE_DRIVER}.driver true\n"
    );
    assert!(drivers_registered(&listing, true));
    assert!(!drivers_registered(&listing, false));
    assert!(!drivers_registered("merge.other.driver true\n", true));
}

#[test]
fn ignored_paths_are_not_committed() {
    let paths = vec!["a".to_string(), "b".to_string()];
    assert_eq!(committable(&paths, "a\n"), ["b"]);
    assert_eq!(committable(&paths, ""), ["a", "b"]);
}

#[test]
fn the_directory_flag_has_many_forms() {
    let found = |words: &[&str]| {
        let words: Vec<String> = words.iter().map(|s| s.to_string()).collect();
        match directory_flag(&words) {
            None => None,
            Some(Directory::At(i)) => Some(words[i].clone()),
            Some(Directory::Inline(d)) => Some(d),
        }
    };
    assert_eq!(found(&["list"]), None);
    for form in [&["-C", "x"][..], &["-Cx"], &["-C=x"], &["--directory", "x"], &["--directory=x"]] {
        assert_eq!(found(form).as_deref(), Some("x"), "{form:?}");
    }
}

fn state() -> StrMap<TaskState> {
    let mut m = StrMap::new();
    for (id, owner) in [("a", "\"bob\""), ("b", "[\"eve\", \"bob\"]")] {
        let mut t = TaskState::blank(id);
        t.custom_fields.insert("owner".to_string(), parse_json(owner).unwrap());
        m.insert(id.to_string(), t);
    }
    m
}

#[test]
fn completion_offers_what_is_there() {
    let cfg = Config::default();
    let st = state();
    assert!(column_names(&cfg, &st).contains("owner"));
    assert!(column_names(&cfg, &st).contains("deps"));
    assert!(field_names(&cfg, &st).contains("owner"));
    assert!(field_names(&cfg, &st).contains("blocks"));
    assert!(!column_names(&cfg, &st).contains("blocks"));
    assert!(value_strings(&cfg, &st, "owner").contains("bob"));
    assert!(value_strings(&cfg, &st, "depends_on").contains("b"));
    assert_eq!(criteria(&cfg, &st, "depends_on="), ["depends_on=a", "depends_on=b"]);
    assert!(criteria(&cfg, &st, "ow").contains(&"owner".to_string()));
    assert!(criteria(&cfg, &st, "").contains(&"blocks".to_string()));
}

fn texts(words: &[&str]) -> Vec<String> {
    words.iter().map(|s| s.to_string()).collect()
}

/// Runs a commit against answers of git, and gives the words git got and the
/// name of the commit.
fn committed(paths: &[&str], answers: &[Option<(i32, &str)>]) -> (Vec<String>, Option<String>) {
    let mut asked = Vec::new();
    let mut step = commit_paths(&texts(paths));
    let mut answers = answers.iter();
    loop {
        match step {
            CommitStep::Done(name) => return (asked, name),
            CommitStep::Run { words, paths, stage } => {
                asked.push(words.join(" "));
                let ran = answers
                    .next()
                    .unwrap()
                    .map(|(code, out)| Ran { code: Some(code), out: out.to_string() });
                step = commit_step(stage, &paths, "a message", &ran);
            }
        }
    }
}

#[test]
fn commits_go_step_by_step() {
    let (asked, name) = committed(
        &["a", "b"],
        &[Some((0, "a\n")), Some((0, "")), Some((1, "")), Some((0, "")), Some((0, "abc123\n"))],
    );
    assert_eq!(
        asked,
        [
            "check-ignore -- a b",
            "add -- b",
            "diff --cached --quiet -- b",
            "commit -m a message -- b",
            "rev-parse --short HEAD",
        ]
    );
    assert_eq!(name.as_deref(), Some("abc123"));
    // Nothing to commit, everything ignored, no changes, and git that fails.
    assert_eq!(committed(&[], &[]).1, None);
    assert_eq!(committed(&["a"], &[Some((0, "a\n"))]).1, None);
    assert_eq!(committed(&["a"], &[Some((1, "")), Some((0, "")), Some((0, ""))]).1, None);
    assert_eq!(committed(&["a"], &[None, Some((128, ""))]).1, None);
    assert!(matches!(
        commit_step(CommitStage::Compared, &texts(&["a"]), "m", &None),
        CommitStep::Done(None)
    ));
}

#[test]
fn drivers_that_are_set_count_as_registered() {
    let listing: Vec<String> =
        driver_settings().iter().map(|(k, v)| format!("{k} {v}")).collect();
    assert_eq!(listing.len(), 4);
    assert!(drivers_registered(&(listing.join("\n") + "\n"), true));
}

#[test]
fn gates_depend_on_the_command() {
    let sound = Config::default();
    let mut broken = Config::default();
    broken.compaction = CompactionConfig { keep_events: 0, keep_days: 0 };
    let old = Some("edges in two places".to_string());
    assert!(check_gates(CommandKind::List, &sound, &None, &None).is_ok());
    assert!(check_gates(CommandKind::List, &broken, &None, &None).is_err());
    assert!(check_gates(CommandKind::Config, &broken, &old, &old).is_ok());
    assert!(check_gates(CommandKind::Resolve, &broken, &old, &old).is_ok());
    assert!(check_gates(CommandKind::Repair, &sound, &None, &old).is_ok());
    let err = check_gates(CommandKind::Repair, &sound, &old, &None).err().unwrap();
    assert!(err.contains("pre-1.0 on-disk format"), "{err}");
    let err = check_gates(CommandKind::Create, &sound, &None, &old).err().unwrap();
    assert!(err.starts_with("edges in two places. The store is in an older"), "{err}");
    assert!(!gates(CommandKind::Init).store && gates(CommandKind::Undo).scm);
}

#[test]
fn repairs_are_reported() {
    assert_eq!(repair_steps(false, false, false, false), None);
    assert_eq!(
        repair_steps(true, false, true, false),
        Some(RepairSteps { migrate: true, schema: true })
    );
    assert_eq!(render_migrate(&Vec::new()), ["Already up to date; nothing to migrate."]);
    assert_eq!(
        render_migrate(&vec![("edges".to_string(), 3)]),
        ["migrated `edges`: 3 event(s)", "Done."]
    );
    let report = SchemaRepairReport {
        rename: Some(RenameOutcome {
            old: "sev".to_string(),
            new: "severity".to_string(),
            moved: 2,
            kept: 1,
        }),
        typed: texts(&["`a` as bug"]),
        fixes: Vec::new(),
        remaining: texts(&["`b`: bad"]),
        changed: true,
    };
    let lines = render_schema(&report);
    assert_eq!(lines[0], "renamed `sev` -> `severity`: 2 record(s)");
    assert!(lines[1].starts_with("kept `sev` on 1 record(s)"));
    assert_eq!(lines[2], "typed `a` as bug");
    assert!(lines[3].starts_with("1 task(s) still don't conform"));
    assert_eq!(lines[4], "  `b`: bad");
    assert_eq!(lines.len(), 5);
}
