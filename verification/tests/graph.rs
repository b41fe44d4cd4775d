//! Edges between tasks: circles, second edges, second parents, chains.

use taska::dep::critical_path;
use taska::edges::validate_blocker_additions;
use taska::graph::{dependency_cycles, duplicate_blocker_edges, multi_parent_tasks};
use taska::model::TaskState;
use taska::strmap::{StrMap, StrSet};

fn names(of: &[&str]) -> StrSet {
    let mut set = StrSet::new();
    for x in of {
        set.insert(x.to_string());
    }
    set
}

fn words(of: &[&str]) -> Vec<String> {
    of.iter().map(|x| x.to_string()).collect()
}

/// Tasks `(id, [(type, targets)])`.
fn tasks(of: &[(&str, &[(&str, &[&str])])]) -> StrMap<TaskState> {
    let mut state = StrMap::new();
    for (id, edges) in of {
        let mut t = TaskState::blank(id);
        for (rel, targets) in *edges {
            t.relationships.insert(rel.to_string(), words(targets));
        }
        state.insert(id.to_string(), t);
    }
    state
}

#[test]
fn a_task_that_waits_for_itself_twice_is_one_circle() {
    let state = tasks(&[("a", &[("after", &["a"]), ("needs", &["a", "a"])]), ("b", &[])]);
    let found = dependency_cycles(&state, &names(&["after", "needs"]));
    assert_eq!(found, [words(&["a"])]);
}

#[test]
fn circles_are_listed_once_each_and_in_order() {
    let state = tasks(&[
        ("a", &[("needs", &["b"])]),
        ("b", &[("needs", &["a"])]),
        ("c", &[("needs", &["c"])]),
        ("d", &[("needs", &["a"])]),
    ]);
    let found = dependency_cycles(&state, &names(&["needs"]));
    assert_eq!(found, [words(&["a", "b"]), words(&["c"])]);
    assert!(dependency_cycles(&state, &names(&["mentions"])).is_empty());
}

#[test]
fn second_blockers_and_second_parents_are_listed() {
    let state = tasks(&[
        ("a", &[("needs", &["b"]), ("part", &["b", "c"])]),
        ("b", &[]),
        ("c", &[("part", &["b"])]),
    ]);
    let doubles = duplicate_blocker_edges(&state, &names(&["needs", "part"]));
    assert_eq!(doubles, [("a".to_string(), "b".to_string(), words(&["needs", "part"]))]);
    let parents = multi_parent_tasks(&state, &names(&["part"]));
    assert_eq!(parents, [("b".to_string(), words(&["a", "c"]))]);
}

#[test]
fn additions_are_refused_exactly_where_they_break_the_structure() {
    let state = tasks(&[("a", &[("needs", &["b"])]), ("b", &[]), ("c", &[])]);
    let (blockers, hierarchy) = (names(&["needs", "part"]), names(&["part"]));
    let said = |of: &[(&str, &str, &str)]| {
        let edges = of.iter().map(|e| (e.0.to_string(), e.1.to_string(), e.2.to_string()));
        validate_blocker_additions(&edges.collect(), &state, &blockers, &hierarchy)
    };
    assert_eq!(said(&[]), Ok(()));
    assert_eq!(said(&[("a", "needs", "b"), ("a", "mentions", "b"), ("b", "part", "c")]), Ok(()));
    assert_eq!(
        said(&[("a", "part", "b")]).unwrap_err(),
        "`a` already has a `needs` relationship to `b`; \
         only one blocking relationship is allowed between two tasks"
    );
    // What is added earlier in the list counts too.
    assert_eq!(
        said(&[("a", "part", "c"), ("b", "part", "c")]).unwrap_err(),
        "`c` is already a subtask of `a`; a task can have only one parent"
    );
}

#[test]
fn the_longest_chain_of_nothing_is_empty() {
    let state = tasks(&[("a", &[])]);
    assert!(critical_path(&Vec::new(), &state, &names(&["needs"])).is_empty());
    let chain = tasks(&[("a", &[("needs", &["b"])]), ("b", &[]), ("c", &[])]);
    let got = critical_path(&words(&["b", "a", "c"]), &chain, &names(&["needs"]));
    assert_eq!(got, words(&["b", "a"]));
}
