//! The intent handler: the one place operation semantics are defined. It
//! turns a semantic file-change observation into an intent, queues it,
//! drains the queue for execution, and records successful completions into
//! the journal. Both the live event path and the rescan path come through
//! here, so "normal" and "catch-up" handling cannot diverge.
use vstd::prelude::*;
use crate::config::{Config, spec_resolve};
use crate::intent::{Intent, IntentKind, IntentList, IntentModel, intent_models, list_wf, spec_push};
use crate::journal::{
    EntryModel, Journal, JournalEntry, has_entry, journal_wf, lemma_lookup_after_remove,
    lemma_lookup_after_upsert, spec_entry_matches, spec_lookup, spec_remove, spec_upsert,
};
use crate::text::copy_text;
use crate::types::FsState;

verus! {

/// What an observation decides: the single intent to enqueue, or nothing.
///
/// A file whose recorded signature and destination already match is in sync
/// — no work; a missing path the journal does not track has nothing to
/// delete — no work; a path under no watched root is not ours — no work.
pub open spec fn spec_decide(cfg: Config, j: Seq<EntryModel>, path: Seq<char>, st: FsState) -> Option<IntentModel> {
    match spec_resolve(cfg, path) {
        Option::None => Option::None,
        Option::Some(dest) => match st {
            FsState::File(sig) => if spec_entry_matches(j, path, sig, dest) {
                Option::None
            } else {
                Option::Some(IntentModel { kind: IntentKind::CopyUpdate(sig), source: path, dest: dest })
            },
            FsState::Dir => Option::Some(IntentModel { kind: IntentKind::CreateDir, source: path, dest: dest }),
            FsState::Missing => match spec_lookup(j, path) {
                Option::Some(l) => Option::Some(
                    IntentModel { kind: IntentKind::Delete, source: path, dest: l.1 },
                ),
                Option::None => Option::None,
            },
        },
    }
}

/// The pending queue after an observation is handled: the decided intent
/// pushed (coalescing with a pending one for the same path), or unchanged.
pub open spec fn spec_after_change(cfg: Config, j: Seq<EntryModel>, pending: Seq<IntentModel>, path: Seq<char>, st: FsState) -> Seq<IntentModel> {
    match spec_decide(cfg, j, path, st) {
        Option::Some(m) => spec_push(pending, m),
        Option::None => pending,
    }
}

/// The journal after a completed operation is recorded: a copy upserts the
/// path's record, a delete removes it; directory creation is not tracked.
pub open spec fn spec_record(j: Seq<EntryModel>, m: IntentModel) -> Seq<EntryModel> {
    match m.kind {
        IntentKind::CopyUpdate(sig) => spec_upsert(
            j,
            EntryModel { path: m.source, sig: sig, dest: m.dest },
        ),
        IntentKind::Delete => spec_remove(j, m.source),
        IntentKind::CreateDir => j,
    }
}

/// Turns observations into intents, drains them for execution, and records
/// completions.
pub struct IntentHandler {
    pub pending: IntentList,
}

impl IntentHandler {
    /// A handler with an empty queue.
    pub fn new() -> (r: IntentHandler)
        ensures
            r.pending@ == Seq::<IntentModel>::empty(),
    {
        IntentHandler { pending: IntentList::new() }
    }

    /// Handles one semantic observation: resolves the destination, decides
    /// and enqueues the intent (coalescing per path), then drains the queue
    /// and hands the intents back in order for execution. The surrounding
    /// process executes each and reports completions through
    /// `record_success`; on failure it records nothing, leaving the journal
    /// stale for that path until a later event or rescan retries it.
    pub fn handle_change(&mut self, cfg: &Config, journal: &Journal, path: Vec<char>, st: FsState) -> (work: Vec<Intent>)
        requires
            list_wf(old(self).pending@),
            journal_wf(journal@),
        ensures
            intent_models(work@) == spec_after_change(*cfg, journal@, old(self).pending@, path@, st),
            final(self).pending@ == Seq::<IntentModel>::empty(),
    {
        match cfg.resolve_dest(&path) {
            Option::None => {}
            Option::Some(dest) => {
                match st {
                    FsState::File(sig) => {
                        if !journal.entry_matches(&path, &sig, &dest) {
                            self.pending.push(
                                Intent { kind: IntentKind::CopyUpdate(sig), source: path, dest: dest },
                            );
                        }
                    }
                    FsState::Dir => {
                        self.pending.push(
                            Intent { kind: IntentKind::CreateDir, source: path, dest: dest },
                        );
                    }
                    FsState::Missing => {
                        match journal.dest_of(&path) {
                            Option::Some(d) => {
                                self.pending.push(
                                    Intent { kind: IntentKind::Delete, source: path, dest: d },
                                );
                            }
                            Option::None => {}
                        }
                    }
                }
            }
        }
        self.pending.drain()
    }

    /// Records a completed operation: a successful copy upserts the path's
    /// journal record with the signature and destination the operation used,
    /// a successful delete removes the record; directory creation is not
    /// tracked. The journal is only ever mutated here, after the operation
    /// committed, so a crash in between leaves the journal merely stale.
    pub fn record_success(journal: &mut Journal, intent: &Intent)
        requires
            journal_wf(old(journal)@),
        ensures
            final(journal)@ == spec_record(old(journal)@, intent@),
            journal_wf(final(journal)@),
            final(journal).dirty == match intent@.kind {
                IntentKind::CopyUpdate(_) => true,
                IntentKind::Delete => old(journal).dirty || has_entry(old(journal)@, intent@.source),
                IntentKind::CreateDir => old(journal).dirty,
            },
    {
        match &intent.kind {
            IntentKind::CopyUpdate(sig) => {
                journal.upsert(
                    copy_text(&intent.source),
                    JournalEntry { sig: *sig, dest: copy_text(&intent.dest) },
                );
            }
            IntentKind::Delete => {
                journal.remove(&intent.source);
            }
            IntentKind::CreateDir => {}
        }
    }
}

/// Law (idempotence): once a resolved change has been executed and its
/// completion recorded, handling the very same observation again — same
/// path, same signature for a file, still missing for a delete — decides no
/// further work: there is no second execution and no second journal
/// mutation. (Directory intents are not journaled; re-creating a directory
/// that exists is the no-op the destination tree itself provides.)
pub proof fn lemma_handle_change_idempotent(cfg: Config, j: Seq<EntryModel>, path: Seq<char>, st: FsState, m: IntentModel)
    requires
        journal_wf(j),
        st matches FsState::File(_) || st == FsState::Missing,
        spec_decide(cfg, j, path, st) == Option::Some(m),
    ensures
        spec_decide(cfg, spec_record(j, m), path, st) == Option::<IntentModel>::None,
{
    match st {
        FsState::File(sig) => {
            lemma_lookup_after_upsert(j, EntryModel { path: path, sig: sig, dest: m.dest });
        }
        FsState::Dir => {}
        FsState::Missing => {
            lemma_lookup_after_remove(j, path);
        }
    }
}

/// The journal after one observation is decided and, when it yields an
/// intent, that intent's completion is recorded.
pub open spec fn spec_step(cfg: Config, j: Seq<EntryModel>, path: Seq<char>, st: FsState) -> Seq<EntryModel> {
    match spec_decide(cfg, j, path, st) {
        Option::Some(m) => spec_record(j, m),
        Option::None => j,
    }
}

/// Law (crash-consistency, repair): handling an observation brings the
/// journal's record for that path to exactly the observed state — a file
/// seen with a signature is recorded with that signature and its resolved
/// destination, a missing path is no longer tracked. With `lemma_rescan_covers_*`
/// (every drift between a stale journal and the live tree is synthesized as
/// such an observation) this is why a restart followed by a rescan catches
/// the journal up after a crash between execution and flush.
pub proof fn lemma_step_corrects(cfg: Config, j: Seq<EntryModel>, path: Seq<char>, st: FsState)
    requires
        journal_wf(j),
        spec_resolve(cfg, path) is Some,
        st matches FsState::File(_) || st == FsState::Missing,
    ensures
        st matches FsState::File(sig) ==> spec_lookup(spec_step(cfg, j, path, st), path)
            == Option::Some((sig, spec_resolve(cfg, path)->Some_0)),
        st == FsState::Missing ==> !has_entry(spec_step(cfg, j, path, st), path),
{
    let dest = spec_resolve(cfg, path)->Some_0;
    match st {
        FsState::File(sig) => {
            if spec_entry_matches(j, path, sig, dest) {
            } else {
                lemma_lookup_after_upsert(j, EntryModel { path: path, sig: sig, dest: dest });
            }
        }
        FsState::Dir => {}
        FsState::Missing => {
            match spec_lookup(j, path) {
                Option::Some(l) => {
                    lemma_lookup_after_remove(j, path);
                }
                Option::None => {}
            }
        }
    }
}

/// Law (crash-consistency, frame): handling an observation for one path
/// leaves every other path's journal record untouched, so repairs for
/// different paths compose and none corrupts another's state.
pub proof fn lemma_step_frame(cfg: Config, j: Seq<EntryModel>, path: Seq<char>, st: FsState, other: Seq<char>)
    requires
        journal_wf(j),
        other != path,
    ensures
        spec_lookup(spec_step(cfg, j, path, st), other) == spec_lookup(j, other),
{
    match spec_decide(cfg, j, path, st) {
        Option::Some(m) => {
            assert(m.source == path);
            match m.kind {
                IntentKind::CopyUpdate(sig) => {
                    crate::journal::lemma_lookup_after_upsert_other(
                        j,
                        EntryModel { path: m.source, sig: sig, dest: m.dest },
                        other,
                    );
                }
                IntentKind::Delete => {
                    crate::journal::lemma_lookup_after_remove_other(j, m.source, other);
                }
                IntentKind::CreateDir => {}
            }
        }
        Option::None => {}
    }
}

/// Handling one observation keeps the journal's one-record-per-path
/// invariant.
pub proof fn lemma_step_wf(cfg: Config, j: Seq<EntryModel>, path: Seq<char>, st: FsState)
    requires
        journal_wf(j),
    ensures
        journal_wf(spec_step(cfg, j, path, st)),
{
    match spec_decide(cfg, j, path, st) {
        Option::Some(m) => {
            match m.kind {
                IntentKind::CopyUpdate(sig) => {
                    crate::journal::lemma_upsert_wf(
                        j,
                        EntryModel { path: m.source, sig: sig, dest: m.dest },
                    );
                }
                IntentKind::Delete => {
                    crate::journal::lemma_remove_wf(j, m.source);
                }
                IntentKind::CreateDir => {}
            }
        }
        Option::None => {}
    }
}

/// The journal after a sequence of observations is handled one at a time,
/// each decided against the journal as the previous ones left it — exactly
/// the order a rescan routes its synthesized observations through
/// `handle_change`.
pub open spec fn spec_process(cfg: Config, j: Seq<EntryModel>, obs: Seq<(Seq<char>, FsState)>) -> Seq<EntryModel>
    decreases obs.len(),
{
    if obs.len() == 0 {
        j
    } else {
        spec_process(cfg, spec_step(cfg, j, obs[0].0, obs[0].1), obs.skip(1))
    }
}

/// Processing observations for other paths never touches this path's
/// record.
pub proof fn lemma_process_frame(cfg: Config, j: Seq<EntryModel>, obs: Seq<(Seq<char>, FsState)>, p: Seq<char>)
    requires
        journal_wf(j),
        forall|a: int| 0 <= a < obs.len() ==> (#[trigger] obs[a]).0 != p,
    ensures
        spec_lookup(spec_process(cfg, j, obs), p) == spec_lookup(j, p),
        journal_wf(spec_process(cfg, j, obs)),
    decreases obs.len(),
{
    if obs.len() > 0 {
        let j1 = spec_step(cfg, j, obs[0].0, obs[0].1);
        lemma_step_wf(cfg, j, obs[0].0, obs[0].1);
        lemma_step_frame(cfg, j, obs[0].0, obs[0].1, p);
        assert(forall|a: int| 0 <= a < obs.skip(1).len() ==> (#[trigger] obs.skip(1)[a]).0 != p);
        lemma_process_frame(cfg, j1, obs.skip(1), p);
    }
}

/// Law (crash-consistency, composition): handling a sequence of
/// observations that hold at most one observation per path — which is what
/// a rescan synthesizes — leaves every observed, resolvable path's journal
/// record in exactly its observed state: a file seen with a signature is
/// recorded with that signature and its resolved destination, a missing
/// path is no longer tracked, whatever the stale journal held before.
pub proof fn lemma_process_pointwise(cfg: Config, j: Seq<EntryModel>, obs: Seq<(Seq<char>, FsState)>, q: int)
    requires
        journal_wf(j),
        forall|a: int, b: int| 0 <= a < b < obs.len() ==> (#[trigger] obs[a]).0 != (#[trigger] obs[b]).0,
        0 <= q < obs.len(),
        spec_resolve(cfg, obs[q].0) is Some,
        obs[q].1 matches FsState::File(_) || obs[q].1 == FsState::Missing,
    ensures
        obs[q].1 matches FsState::File(sig) ==> spec_lookup(spec_process(cfg, j, obs), obs[q].0)
            == Option::Some((sig, spec_resolve(cfg, obs[q].0)->Some_0)),
        obs[q].1 == FsState::Missing ==> !has_entry(spec_process(cfg, j, obs), obs[q].0),
    decreases obs.len(),
{
    let j1 = spec_step(cfg, j, obs[0].0, obs[0].1);
    lemma_step_wf(cfg, j, obs[0].0, obs[0].1);
    if q == 0 {
        lemma_step_corrects(cfg, j, obs[0].0, obs[0].1);
        assert(forall|a: int| 0 <= a < obs.skip(1).len() ==> (#[trigger] obs.skip(1)[a]).0 != obs[0].0);
        lemma_process_frame(cfg, j1, obs.skip(1), obs[0].0);
    } else {
        let rest = obs.skip(1);
        assert(forall|a: int, b: int|
            0 <= a < b < rest.len() ==> (#[trigger] rest[a]).0 != (#[trigger] rest[b]).0);
        assert(rest[q - 1] == obs[q]);
        lemma_process_pointwise(cfg, j1, rest, q - 1);
    }
}

} // verus!
