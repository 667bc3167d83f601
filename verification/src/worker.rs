//! The worker: the single sequential actor that owns inbound message
//! processing. Each message is fully handled — classified, resolved, drained
//! — before the next is taken, which is what makes the per-path
//! at-most-one-in-flight guarantee hold at the system level. The queue, the
//! task it runs on, and the join at shutdown live in the surrounding
//! process; the state machine and the per-message processing live here.
use vstd::prelude::*;
use crate::config::Config;
use crate::handler::IntentHandler;
use crate::intent::{Intent, IntentModel, intent_models, list_wf};
use crate::journal::{Journal, journal_wf};
use crate::message::{MessageHandler, WorkerMessage, spec_handle_message};

verus! {

/// The actor's lifecycle: accepting work, draining, done.
#[derive(Clone, Copy, PartialEq, Eq, Structural, Debug)]
pub enum WorkerState {
    Running,
    ShuttingDown,
    Stopped,
}

/// The error `send_message` reports once the actor no longer accepts work.
#[derive(Clone, Copy, PartialEq, Eq, Structural, Debug)]
pub enum WorkerError {
    NotRunning,
}

pub struct Worker {
    pub state: WorkerState,
    pub handler: MessageHandler,
}

impl Worker {
    /// A running worker around the given message handler.
    pub fn new(handler: MessageHandler) -> (r: Worker)
        ensures
            r.state == WorkerState::Running,
    {
        Worker { state: WorkerState::Running, handler: handler }
    }

    /// Whether the actor still accepts messages.
    pub fn is_running(&self) -> (r: bool)
        ensures
            r == (self.state == WorkerState::Running),
    {
        match self.state {
            WorkerState::Running => true,
            _ => false,
        }
    }

    /// Hands one message to the actor. While running, the message is
    /// processed to completion before the call returns, and the drained
    /// intents come back for execution; once shutdown has begun the message
    /// is refused and nothing changes. A refusal tells the caller the
    /// pipeline no longer makes progress and is its signal to stop the whole
    /// system.
    pub fn send_message(&mut self, cfg: &Config, journal: &Journal, intents: &mut IntentHandler, msg: WorkerMessage) -> (r: Result<Vec<Intent>, WorkerError>)
        requires
            list_wf(old(intents).pending@),
            journal_wf(journal@),
        ensures
            *final(self) == *old(self),
            match r {
                Result::Ok(work) => old(self).state == WorkerState::Running
                    && intent_models(work@) == spec_handle_message(*cfg, journal@, old(intents).pending@, msg)
                    && final(intents).pending@ == Seq::<IntentModel>::empty(),
                Result::Err(e) => old(self).state != WorkerState::Running
                    && e == WorkerError::NotRunning
                    && *final(intents) == *old(intents),
            },
    {
        match self.state {
            WorkerState::Running => Result::Ok(self.handler.handle(cfg, journal, intents, msg)),
            _ => Result::Err(WorkerError::NotRunning),
        }
    }

    /// Begins the cooperative shutdown: the actor stops accepting new
    /// messages; whatever was already handed over drains. Stopped stays
    /// stopped.
    pub fn shutdown(&mut self)
        ensures
            final(self).state == (if old(self).state == WorkerState::Stopped {
                WorkerState::Stopped
            } else {
                WorkerState::ShuttingDown
            }),
            final(self).handler == old(self).handler,
    {
        match self.state {
            WorkerState::Stopped => {}
            _ => {
                self.state = WorkerState::ShuttingDown;
            }
        }
    }

    /// Acknowledges that the actor's processing loop has exited (the
    /// surrounding process joins the task, then calls this): the actor is
    /// stopped for good.
    pub fn wait_for_shutdown(&mut self)
        ensures
            final(self).state == WorkerState::Stopped,
            final(self).handler == old(self).handler,
    {
        self.state = WorkerState::Stopped;
    }
}

} // verus!
