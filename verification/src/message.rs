//! The message handler: classifies inbound worker messages into semantic
//! file-change observations and forwards them to the intent handler.
use vstd::prelude::*;
use crate::config::Config;
use crate::handler::{IntentHandler, spec_after_change};
use crate::intent::{Intent, IntentModel, intent_models, list_wf};
use crate::journal::{EntryModel, Journal, journal_wf};
use crate::types::{ChangeKind, FsState};

verus! {

/// A message to the worker. The union is open to future message kinds; the
/// filesystem-event variant is the one the pipeline exercises.
#[non_exhaustive]
pub enum WorkerMessage {
    /// A raw filesystem notification: the affected path, the kind the
    /// watcher reported, and what the filesystem held at the path when the
    /// surrounding process looked it up.
    FilesystemEvent { path: Vec<char>, kind: ChangeKind, found: FsState },
}

/// The semantic observation a raw notification classifies to: a removal
/// notification means the path is gone; any other kind means whatever the
/// lookup found (a rename shows up as the old path now missing and the new
/// path now present, each in its own notification).
pub open spec fn spec_classify(kind: ChangeKind, found: FsState) -> FsState {
    match kind {
        ChangeKind::Remove => FsState::Missing,
        _ => found,
    }
}

/// The pending queue after one message is handled.
pub open spec fn spec_handle_message(cfg: Config, j: Seq<EntryModel>, pending: Seq<IntentModel>, msg: WorkerMessage) -> Seq<IntentModel> {
    match msg {
        WorkerMessage::FilesystemEvent { path, kind, found } => spec_after_change(
            cfg,
            j,
            pending,
            path@,
            spec_classify(kind, found),
        ),
    }
}

/// Classifies messages and feeds observations to the intent handler.
pub struct MessageHandler {}

impl MessageHandler {
    pub fn new() -> MessageHandler {
        MessageHandler {}
    }

    /// Handles one message: a filesystem event is classified and routed
    /// through `IntentHandler::handle_change`; an event for a path outside
    /// every watched root resolves to no destination and produces no work
    /// (the watcher should not emit such paths, but the boundary is not
    /// trusted).
    pub fn handle(&self, cfg: &Config, journal: &Journal, intents: &mut IntentHandler, msg: WorkerMessage) -> (work: Vec<Intent>)
        requires
            list_wf(old(intents).pending@),
            journal_wf(journal@),
        ensures
            intent_models(work@) == spec_handle_message(*cfg, journal@, old(intents).pending@, msg),
            final(intents).pending@ == Seq::<IntentModel>::empty(),
    {
        match msg {
            WorkerMessage::FilesystemEvent { path, kind, found } => {
                let st = match kind {
                    ChangeKind::Remove => FsState::Missing,
                    _ => found,
                };
                intents.handle_change(cfg, journal, path, st)
            }
        }
    }
}

} // verus!
