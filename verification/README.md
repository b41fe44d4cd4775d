# taska

Task tracking over an append-only event log, verified with Verus.

A store is a baseline of tasks and a log of events since. The library replays
the log, orders and filters tasks, plans work over their dependencies, undoes
events, folds the log, checks the configuration, and renders what commands
print. It does no input or output of its own.

- `src/` is the library; every public function carries a contract that Verus proves.
  Calls into other crates stand behind small functions whose contracts are
  stated, not proved; each names the outside function it makes.
- `tests/` runs the library on concrete values.
- `app/` is the command-line program `ta`: argument parsing, files, git and the
  editor.

Where to start reading: `model.rs` (tasks and events), `engine.rs` (what events
do), `store.rs` and `write.rs` (what a write does), `undo.rs`, `history.rs` and
`timeline.rs` (what an undo does), `graph.rs` and `dep.rs` (dependencies), `list.rs` and
`display.rs` (what is shown).

Facts that relate several functions are public proof functions next to them, for
example `history::undo_takes_back_its_events`, `write::writes_leave_no_orphans`,
`graph::ready_and_blocked_partition`, `timeline::applied_undos_do_what_they_show`
and `settings::set_is_read_back`.
