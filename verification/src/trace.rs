//! Dispatch trace records: a deterministic, append-only record of what
//! happened while a list of tool invocations was dispatched (each hook's
//! decision, hook errors, cleanups, and the final per-invocation outcome).

use vstd::prelude::*;

use crate::normalizer::ToolDispatchAction;

verus! {

/// Final outcome recorded for one invocation.
#[derive(Debug, PartialEq)]
pub enum TracedOutcome {
    /// The tool body ran and produced a result.
    Completed,
    /// A hook synthesised a skip result.
    Skipped { reason: Option<String> },
    /// A hook stopped the dispatch loop.
    Terminated { reason: String },
    /// The tool body or a hook returned an error.
    Failed { message: String },
}

/// Projection of a [`ToolDispatchAction`] suitable for trace recording: the
/// action without the synthetic output of a skip.
#[derive(Debug, PartialEq)]
pub enum TracedAction {
    Continue,
    Skip { reason: Option<String> },
    Terminate { reason: String },
}

/// One observable event within a dispatch trace. `invocation_index` and
/// `hook_index` are positions in the invocation and hook lists of the
/// dispatch.
#[derive(Debug, PartialEq)]
pub enum DispatchTraceEvent {
    /// A hook's `before_invocation` returned a decision.
    HookBefore { invocation_index: usize, hook_index: usize, decision: TracedAction },
    /// A hook's `before_invocation` returned an error and aborted dispatch.
    HookBeforeError { invocation_index: usize, hook_index: usize, message: String },
    /// A hook's `on_invocation_error` was notified so it could release what
    /// it reserved in `before_invocation`.
    HookCleanup { invocation_index: usize, hook_index: usize },
    /// A hook's `after_invocation_with_outcome` ran successfully.
    HookAfter { invocation_index: usize, hook_index: usize },
    /// The invocation finished with a final outcome.
    InvocationOutcome { invocation_index: usize, outcome: TracedOutcome },
}

/// A copy of an optional string.
pub fn copy_opt_string(o: &Option<String>) -> (r: Option<String>)
    ensures
        r == *o,
{
    match o {
        Some(s) => Some(s.clone()),
        None => None,
    }
}

/// The trace projection of a dispatch action.
pub open spec fn traced_action(a: ToolDispatchAction) -> TracedAction {
    match a {
        ToolDispatchAction::Continue => TracedAction::Continue,
        ToolDispatchAction::Skip { reason, .. } => TracedAction::Skip { reason },
        ToolDispatchAction::Terminate { reason } => TracedAction::Terminate { reason },
    }
}

impl<'a> From<&'a ToolDispatchAction> for TracedAction {
    fn from(value: &'a ToolDispatchAction) -> (r: TracedAction) {
        match value {
            ToolDispatchAction::Continue => TracedAction::Continue,
            ToolDispatchAction::Skip { reason, .. } => TracedAction::Skip {
                reason: copy_opt_string(reason),
            },
            ToolDispatchAction::Terminate { reason } => TracedAction::Terminate {
                reason: reason.clone(),
            },
        }
    }
}

impl<'a> vstd::std_specs::convert::FromSpecImpl<&'a ToolDispatchAction> for TracedAction {
    open spec fn obeys_from_spec() -> bool {
        true
    }

    open spec fn from_spec(v: &'a ToolDispatchAction) -> TracedAction {
        traced_action(*v)
    }
}

impl Clone for TracedAction {
    fn clone(&self) -> (r: TracedAction)
        ensures
            r == *self,
    {
        match self {
            TracedAction::Continue => TracedAction::Continue,
            TracedAction::Skip { reason } => TracedAction::Skip { reason: copy_opt_string(reason) },
            TracedAction::Terminate { reason } => TracedAction::Terminate { reason: reason.clone() },
        }
    }
}

impl Clone for TracedOutcome {
    fn clone(&self) -> (r: TracedOutcome)
        ensures
            r == *self,
    {
        match self {
            TracedOutcome::Completed => TracedOutcome::Completed,
            TracedOutcome::Skipped { reason } => TracedOutcome::Skipped { reason: copy_opt_string(reason) },
            TracedOutcome::Terminated { reason } => TracedOutcome::Terminated { reason: reason.clone() },
            TracedOutcome::Failed { message } => TracedOutcome::Failed { message: message.clone() },
        }
    }
}

impl Clone for DispatchTraceEvent {
    fn clone(&self) -> (r: DispatchTraceEvent)
        ensures
            r == *self,
    {
        match self {
            DispatchTraceEvent::HookBefore { invocation_index, hook_index, decision } =>
                DispatchTraceEvent::HookBefore {
                    invocation_index: *invocation_index,
                    hook_index: *hook_index,
                    decision: decision.clone(),
                },
            DispatchTraceEvent::HookBeforeError { invocation_index, hook_index, message } =>
                DispatchTraceEvent::HookBeforeError {
                    invocation_index: *invocation_index,
                    hook_index: *hook_index,
                    message: message.clone(),
                },
            DispatchTraceEvent::HookCleanup { invocation_index, hook_index } =>
                DispatchTraceEvent::HookCleanup {
                    invocation_index: *invocation_index,
                    hook_index: *hook_index,
                },
            DispatchTraceEvent::HookAfter { invocation_index, hook_index } =>
                DispatchTraceEvent::HookAfter {
                    invocation_index: *invocation_index,
                    hook_index: *hook_index,
                },
            DispatchTraceEvent::InvocationOutcome { invocation_index, outcome } =>
                DispatchTraceEvent::InvocationOutcome {
                    invocation_index: *invocation_index,
                    outcome: outcome.clone(),
                },
        }
    }
}

/// Append-only collector of [`DispatchTraceEvent`]s.
#[derive(Debug)]
pub struct DispatchTrace {
    events: Vec<DispatchTraceEvent>,
}

impl View for DispatchTrace {
    type V = Seq<DispatchTraceEvent>;

    closed spec fn view(&self) -> Seq<DispatchTraceEvent> {
        self.events@
    }
}

impl DispatchTrace {
    /// An empty trace.
    pub fn new() -> (r: DispatchTrace)
        ensures
            r@ == Seq::<DispatchTraceEvent>::empty(),
    {
        DispatchTrace { events: Vec::new() }
    }

    /// Appends an event.
    pub fn push(&mut self, event: DispatchTraceEvent)
        ensures
            final(self)@ == old(self)@.push(event),
    {
        self.events.push(event);
    }

    /// A snapshot of the events recorded so far, in order.
    pub fn events(&self) -> (r: Vec<DispatchTraceEvent>)
        ensures
            r@ == self@,
    {
        let mut out: Vec<DispatchTraceEvent> = Vec::new();
        let mut i: usize = 0;
        while i < self.events.len()
            invariant
                i <= self.events@.len(),
                out@ == self.events@.subrange(0, i as int),
            decreases self.events@.len() - i,
        {
            out.push(self.events[i].clone());
            i = i + 1;
            assert(out@ =~= self.events@.subrange(0, i as int));
        }
        assert(self.events@.subrange(0, self.events@.len() as int) =~= self.events@);
        out
    }

    /// Number of recorded events.
    pub fn len(&self) -> (r: usize)
        ensures
            r == self@.len(),
    {
        self.events.len()
    }

    /// Whether no events have been recorded.
    pub fn is_empty(&self) -> (r: bool)
        ensures
            r == (self@.len() == 0),
    {
        self.events.len() == 0
    }
}

impl Clone for DispatchTrace {
    fn clone(&self) -> (r: DispatchTrace)
        ensures
            r@ == self@,
    {
        DispatchTrace { events: self.events() }
    }
}

} // verus!
