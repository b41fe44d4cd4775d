//! The block that `init` keeps in agent files.

use taska::init::{
    agent_line, agent_targets, integration_block, short_hash, splice_block, store_line, sync_file,
    AgentFile, AgentFileStatus, StoreInit, BLOCK_BEGIN, BLOCK_END,
};

#[test]
fn block_is_marker_delimited_and_config_agnostic() {
    let b = integration_block();
    assert!(b.starts_with(BLOCK_BEGIN), "begins with the marker: {b}");
    assert!(b.contains("hash:"), "carries a content hash: {b}");
    assert!(b.trim_end().ends_with(BLOCK_END), "ends with the marker: {b}");
    // Pointers to the dynamic guide and per-command help - not baked-in detail.
    assert!(b.contains("ta prime"), "points at the dynamic guide: {b}");
    assert!(b.contains("--help"), "points at per-command help: {b}");
    // Config-AGNOSTIC: generic placeholders, never a configured literal.
    assert!(b.contains("ta create <id> <field>=<value>"), "generic create shape: {b}");
    assert!(
        !b.contains("type=task") && !b.contains("depends_on") && !b.contains("=todo"),
        "no config-specific literals: {b}"
    );
    // The durable working habits are present.
    assert!(
        b.contains("File a task for each distinct piece of work")
            && b.contains("open or design questions")
            && b.contains("ta dep add"),
        "filing discipline + dependencies: {b}"
    );
    assert!(b.contains("append progress to related tasks"), "cross-task notes: {b}");
    assert!(b.contains("<field>=@-"), "stdin/file input: {b}");
    assert!(b.contains("unrelated to what you're starting"), "commit hygiene: {b}");
}

#[test]
fn splice_appends_then_replaces_in_place_then_no_ops() {
    let doc = "# My project\n\nSome notes.\n";
    let b1 = "<!-- BEGIN TASKA INTEGRATION v1 hash:aaaaaaaa -->\nbody one\n<!-- END TASKA INTEGRATION -->";

    // First sync appends after the existing content.
    let after_append = splice_block(doc, b1).expect("appends");
    assert!(after_append.starts_with("# My project"), "keeps the doc");
    assert!(after_append.contains(b1), "adds the block");

    // Re-syncing the SAME block is a no-op.
    assert!(splice_block(&after_append, b1).is_none(), "identical block is unchanged");

    // A changed block replaces the old one IN PLACE (not appended again).
    let b2 = "<!-- BEGIN TASKA INTEGRATION v1 hash:bbbbbbbb -->\nbody two\n<!-- END TASKA INTEGRATION -->";
    let after_update = splice_block(&after_append, b2).expect("replaces");
    assert!(after_update.contains("body two"), "new body present");
    assert!(!after_update.contains("body one"), "old body gone");
    assert_eq!(
        after_update.matches(BLOCK_BEGIN).count(),
        1,
        "exactly one block remains: {after_update}"
    );
}

#[test]
fn hash_is_stable_for_the_same_content() {
    assert_eq!(short_hash("hello"), short_hash("hello"));
    assert_ne!(short_hash("hello"), short_hash("world"));
    assert_eq!(short_hash("hello").len(), 8);
    assert!(short_hash("").chars().all(|c| c.is_ascii_hexdigit()));
}

#[test]
fn syncing_settles_after_one_write() {
    let block = integration_block();
    let (status, written) = sync_file(None, &block);
    assert!(matches!(status, AgentFileStatus::Created));
    let file = written.unwrap();
    let (status, written) = sync_file(Some(file.clone()), &block);
    assert!(matches!(status, AgentFileStatus::Unchanged));
    assert!(written.is_none());
    let (status, written) = sync_file(Some("notes\n".to_string()), &block);
    assert!(matches!(status, AgentFileStatus::Updated));
    assert!(splice_block(&written.unwrap(), &block).is_none());
}

#[test]
fn the_first_name_is_created_when_no_agent_file_is_there() {
    let names = vec!["AGENTS.md".to_string(), "OTHER.md".to_string()];
    assert_eq!(agent_targets(&names, &vec![false, false]), ["AGENTS.md"]);
    assert_eq!(agent_targets(&names, &vec![false, true]), ["OTHER.md"]);
    assert_eq!(agent_targets(&names, &vec![true, true]), ["AGENTS.md", "OTHER.md"]);
}

#[test]
fn outcomes_are_reported() {
    let file = |status: AgentFileStatus| AgentFile { path: "AGENTS.md".to_string(), status };
    let lines = [
        agent_line(&file(AgentFileStatus::Created)),
        agent_line(&file(AgentFileStatus::Updated)),
        agent_line(&file(AgentFileStatus::Unchanged)),
    ];
    assert!(lines.iter().all(|l| l.contains("AGENTS.md")), "{lines:?}");
    assert!(lines[0] != lines[1] && lines[1] != lines[2]);
    let store = [
        store_line(&StoreInit::Created("/r/.taska".to_string())),
        store_line(&StoreInit::Reused("/r/.taska".to_string())),
    ];
    assert!(store.iter().all(|l| l.contains("/r/.taska")), "{store:?}");
    assert_ne!(store[0], store[1]);
}
