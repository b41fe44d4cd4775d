//! What a command needs of a store before it runs.

use crate::config::{self, Config};
use crate::text;
use vstd::prelude::*;

verus! {

/// The commands there are.
#[derive(Clone, Copy, Debug, PartialEq, Eq, Structural)]
pub enum CommandKind {
    Init,
    Create,
    Update,
    Dep,
    Delete,
    List,
    Watch,
    Show,
    Edit,
    Status,
    Prime,
    Completions,
    SelfUpdate,
    Undo,
    Compact,
    Config,
    Resolve,
    Repair,
    GitMerge,
    GitMergeBaseline,
}

/// What is looked at before a command runs.
#[derive(Clone, Copy, Debug, PartialEq, Eq, Structural)]
pub struct Gates {
    /// There is a store.
    pub store: bool,
    /// Its configuration holds together.
    pub config: bool,
    /// Its files are not in a format that can no longer be read.
    pub legacy: bool,
    /// Its files are in the current format.
    pub format: bool,
    /// The repository around it keeps its merges safe; this only warns.
    pub scm: bool,
}

/// What is looked at before a command runs. Commands that set up, update or
/// merge need no store. The configuration can be looked at and mended, and a
/// conflict reviewed, whatever state the store is in; a repair brings an old
/// format up to date, so it does not ask for the current one.
pub open spec fn gates_of(kind: CommandKind) -> Gates {
    match kind {
        CommandKind::Init
        | CommandKind::Completions
        | CommandKind::SelfUpdate
        | CommandKind::GitMerge
        | CommandKind::GitMergeBaseline => Gates {
            store: false,
            config: false,
            legacy: false,
            format: false,
            scm: false,
        },
        CommandKind::Resolve | CommandKind::Config => Gates {
            store: true,
            config: false,
            legacy: false,
            format: false,
            scm: false,
        },
        CommandKind::Repair => Gates {
            store: true,
            config: true,
            legacy: true,
            format: false,
            scm: false,
        },
        _ => Gates { store: true, config: true, legacy: true, format: true, scm: true },
    }
}

/// What is looked at before a command runs.
pub fn gates(kind: CommandKind) -> (r: Gates)
    ensures
        r == gates_of(kind),
{
    match kind {
        CommandKind::Init
        | CommandKind::Completions
        | CommandKind::SelfUpdate
        | CommandKind::GitMerge
        | CommandKind::GitMergeBaseline => Gates {
            store: false,
            config: false,
            legacy: false,
            format: false,
            scm: false,
        },
        CommandKind::Resolve | CommandKind::Config => Gates {
            store: true,
            config: false,
            legacy: false,
            format: false,
            scm: false,
        },
        CommandKind::Repair => Gates {
            store: true,
            config: true,
            legacy: true,
            format: false,
            scm: false,
        },
        _ => Gates { store: true, config: true, legacy: true, format: true, scm: true },
    }
}

/// A later check is made only where the earlier ones are.
pub proof fn gates_nest(kind: CommandKind)
    ensures
        gates_of(kind).scm ==> gates_of(kind).format,
        gates_of(kind).format ==> gates_of(kind).legacy,
        gates_of(kind).legacy ==> gates_of(kind).config,
        gates_of(kind).config ==> gates_of(kind).store,
{
}

/// Why a store in a format that can no longer be read is refused.
pub open spec fn legacy_text(reason: Seq<char>) -> Seq<char> {
    reason
        + ": this store is in a pre-1.0 on-disk format this version can't read. Run `ta repair --migrate` with the last 0.x release (e.g. 0.5.x) first, then upgrade."@
}

/// Refuses a store in a format that can no longer be read, if `reason` says
/// that it is.
pub fn refuse_if_legacy(reason: &Option<String>) -> (r: Result<(), String>)
    ensures
        r is Ok <==> reason is None,
        r matches Err(m) ==> m@ == legacy_text(reason->0@),
{
    match reason {
        Some(reason) => Err(
            text::cat2(
                reason.as_str(),
                ": this store is in a pre-1.0 on-disk format this version can't read. Run `ta repair --migrate` with the last 0.x release (e.g. 0.5.x) first, then upgrade.",
            ),
        ),
        None => Ok(()),
    }
}

/// Why a store in an older format is refused.
pub open spec fn stale_text(reason: Seq<char>) -> Seq<char> {
    reason
        + ". The store is in an older on-disk format - run `ta repair --migrate` to update it."@
}

/// Refuses a store in an older format: one that can no longer be read, else one
/// that a migration is pending for.
pub fn enforce_format(legacy: &Option<String>, pending: &Option<String>) -> (r: Result<(), String>)
    ensures
        r is Ok <==> legacy is None && pending is None,
        r matches Err(m) ==> m@ == if legacy is Some {
            legacy_text(legacy->0@)
        } else {
            stale_text(pending->0@)
        },
{
    match refuse_if_legacy(legacy) {
        Err(m) => Err(m),
        Ok(()) => match pending {
            Some(reason) => Err(
                text::cat2(
                    reason.as_str(),
                    ". The store is in an older on-disk format - run `ta repair --migrate` to update it.",
                ),
            ),
            None => Ok(()),
        },
    }
}

/// Why a command may not run on a store: the first of its gates that is shut.
pub open spec fn refusal(
    kind: CommandKind,
    config: Config,
    legacy: Option<Seq<char>>,
    pending: Option<Seq<char>>,
) -> Option<Seq<char>> {
    let g = gates_of(kind);
    if g.config && config::struct_problems(config).len() > 0 {
        Some(config::failure_message(config::struct_problems(config)))
    } else if g.legacy && legacy is Some {
        Some(legacy_text(legacy->0))
    } else if g.format && pending is Some {
        Some(stale_text(pending->0))
    } else {
        None
    }
}

/// Whether a command may run on a store: `legacy` and `pending` say what is old
/// about its files.
pub fn check_gates(
    kind: CommandKind,
    config: &Config,
    legacy: &Option<String>,
    pending: &Option<String>,
) -> (r: Result<(), String>)
    ensures
        r is Ok <==> refusal(kind, *config, legacy.deep_view(), pending.deep_view()) is None,
        r matches Err(m) ==> refusal(kind, *config, legacy.deep_view(), pending.deep_view())
            == Some(m@),
{
    let g = gates(kind);
    if g.config {
        match config.validate() {
            Err(m) => {
                return Err(m);
            },
            Ok(()) => {},
        }
    }
    if g.format {
        enforce_format(legacy, pending)
    } else if g.legacy {
        refuse_if_legacy(legacy)
    } else {
        Ok(())
    }
}

/// A store that is sound and in the current format is open to every command,
/// and any store to those that mend its configuration or review a conflict.
pub proof fn sound_stores_are_open(
    kind: CommandKind,
    config: Config,
    legacy: Option<Seq<char>>,
    pending: Option<Seq<char>>,
)
    ensures
        config::struct_problems(config).len() == 0 && legacy is None && pending is None ==> refusal(
            kind,
            config,
            legacy,
            pending,
        ) is None,
        refusal(CommandKind::Config, config, legacy, pending) is None,
        refusal(CommandKind::Resolve, config, legacy, pending) is None,
{
}

/// What stops a command. One that reads or writes tasks stops on a configuration
/// that does not hold together, and on files in an old format or one that needs
/// migration. A repair stops on the first two only, since it is what migrates.
/// Setting up, resolving, configuring, updating and merging never stop.
pub proof fn gates_stop_commands(
    kind: CommandKind,
    config: Config,
    legacy: Option<Seq<char>>,
    pending: Option<Seq<char>>,
)
    ensures
        ({
            let stops = refusal(kind, config, legacy, pending) is Some;
            let broken = config::struct_problems(config).len() > 0;
            let free = kind == CommandKind::Init || kind == CommandKind::Completions || kind
                == CommandKind::SelfUpdate || kind == CommandKind::GitMerge || kind
                == CommandKind::GitMergeBaseline || kind == CommandKind::Resolve || kind
                == CommandKind::Config;
            &&& free ==> !stops
            &&& kind == CommandKind::Repair ==> (stops <==> broken || legacy is Some)
            &&& !free && kind != CommandKind::Repair ==> (stops <==> broken || legacy is Some
                || pending is Some)
        }),
        ({
            let g = gates_of(kind);
            &&& g.store <==> !(kind == CommandKind::Init || kind == CommandKind::Completions || kind
                == CommandKind::SelfUpdate || kind == CommandKind::GitMerge || kind
                == CommandKind::GitMergeBaseline)
            &&& g.scm ==> g.format && g.config && g.legacy
        }),
{
}

} // verus!
