//! The decisions of sequential tool dispatch with hooks, as a state machine.
//!
//! Dispatch runs the invocations in order. For each invocation the hooks'
//! `before_invocation` runs in order until one does not answer `Continue`;
//! then the tool runs (or a hook's skip output stands in for it, or a
//! terminate stops the loop); then every hook's `after_invocation` runs.
//! When dispatch stops on an error, the hooks that may hold a reservation
//! for the invocation are notified in order. Every decision, error,
//! cleanup and outcome is recorded in a [`DispatchTrace`].
//!
//! The machine performs none of the calls itself: [`ToolDispatcher::request`]
//! says which call comes next, and the driver hands its reply back through
//! the matching `*_replied` method.

use vstd::prelude::*;

use crate::envelope::{bound_spec, envelope_of, ToolResultEnvelope, ToolResultEnvelopeConfig};
use crate::json::JsonValue;
use crate::normalizer::{ToolDispatchAction, ToolInvocation, ToolInvocationOutcome, ToolInvocationResult};
use crate::registry::{error_text, KernelError};
use crate::trace::{copy_opt_string, traced_action, DispatchTrace, DispatchTraceEvent, TracedAction, TracedOutcome};

verus! {

/// The call the dispatch loop asks its driver to make next.
#[derive(Debug, PartialEq, Eq, Structural, Clone, Copy)]
pub enum DispatchRequest {
    /// Call hook `hook_index`'s `before_invocation` on invocation `invocation_index`.
    Before { invocation_index: usize, hook_index: usize },
    /// Run the tool of invocation `invocation_index`.
    Invoke { invocation_index: usize },
    /// Call hook `hook_index`'s `on_invocation_error` with the pending error.
    Cleanup { invocation_index: usize, hook_index: usize },
    /// Call hook `hook_index`'s `after_invocation_with_outcome` with the pending result.
    After { invocation_index: usize, hook_index: usize },
    /// Dispatch is over; take the outcome with [`ToolDispatcher::finish`].
    Finished,
}

/// Where the dispatch of the current invocation stands.
#[derive(Debug)]
pub enum DispatchPhase {
    /// Waiting for hook `hook`'s decision; hooks before it answered `Continue`.
    Before { hook: usize },
    /// Waiting for the tool's reply.
    Invoke,
    /// Notifying hooks `hook..upto` of `error`; `closing` is the outcome
    /// recorded once they all were notified.
    Cleanup { hook: usize, upto: usize, error: KernelError, closing: TracedOutcome },
    /// Running hook `hook`'s `after_invocation` on the pending result.
    After { hook: usize, result: ToolInvocationResult, outcome: ToolInvocationOutcome },
    /// Every invocation was dispatched.
    Done,
    /// Dispatch stopped with `error`.
    Stopped { error: KernelError },
}

/// `m` is the message recorded for error `e`: its rendering, where the
/// library knows it.
pub open spec fn message_of(e: KernelError, m: String) -> bool {
    error_text(e) matches Some(t) ==> m@ == t
}

/// The trace projection of an invocation outcome.
pub open spec fn traced_outcome(o: ToolInvocationOutcome) -> TracedOutcome {
    match o {
        ToolInvocationOutcome::Completed => TracedOutcome::Completed,
        ToolInvocationOutcome::Skipped { reason } => TracedOutcome::Skipped { reason },
    }
}

proof fn lemma_remaining_step(n: nat, i: nat, h: nat)
    requires
        i < n,
    ensures
        (n - 1 - i) * (3 * h + 3) >= 0,
        i + 1 < n ==> (n - 1 - i) * (3 * h + 3) == (n - 1 - (i + 1)) * (3 * h + 3) + (3 * h + 3),
{
    assert((n - 1 - i) * (3 * h + 3) >= 0) by (nonlinear_arith)
        requires
            i < n,
    ;
    assert(i + 1 < n ==> (n - 1 - i) * (3 * h + 3) == (n - 1 - (i + 1)) * (3 * h + 3) + (3 * h + 3)) by (nonlinear_arith);
}

/// The sequential dispatch loop over a fixed list of invocations and a
/// fixed number of hooks.
pub struct ToolDispatcher {
    invocations: Vec<ToolInvocation>,
    hooks: usize,
    index: usize,
    phase: DispatchPhase,
    results: Vec<ToolInvocationResult>,
    trace: DispatchTrace,
}

impl ToolDispatcher {
    /// The invocations being dispatched, in order.
    pub closed spec fn invocations(&self) -> Seq<ToolInvocation> {
        self.invocations@
    }

    /// The number of hooks.
    pub closed spec fn hooks(&self) -> nat {
        self.hooks as nat
    }

    /// Index of the invocation being dispatched (the number dispatched so far).
    pub closed spec fn index(&self) -> nat {
        self.index as nat
    }

    /// Where the current invocation's dispatch stands.
    pub closed spec fn phase(&self) -> DispatchPhase {
        self.phase
    }

    /// The results recorded so far, one per dispatched invocation.
    pub closed spec fn results(&self) -> Seq<ToolInvocationResult> {
        self.results@
    }

    /// The trace recorded so far.
    pub closed spec fn events(&self) -> Seq<DispatchTraceEvent> {
        self.trace@
    }

    /// The phase in which the dispatch of invocation `i` begins.
    pub open spec fn entry(&self, i: nat) -> DispatchPhase {
        if i >= self.invocations().len() {
            DispatchPhase::Done
        } else if self.hooks() > 0 {
            DispatchPhase::Before { hook: 0 }
        } else {
            DispatchPhase::Invoke
        }
    }

    /// The request that corresponds to the current phase.
    pub open spec fn pending(&self) -> DispatchRequest {
        let i = self.index() as usize;
        match self.phase() {
            DispatchPhase::Before { hook } => DispatchRequest::Before { invocation_index: i, hook_index: hook },
            DispatchPhase::Invoke => DispatchRequest::Invoke { invocation_index: i },
            DispatchPhase::Cleanup { hook, .. } => DispatchRequest::Cleanup { invocation_index: i, hook_index: hook },
            DispatchPhase::After { hook, .. } => DispatchRequest::After { invocation_index: i, hook_index: hook },
            DispatchPhase::Done => DispatchRequest::Finished,
            DispatchPhase::Stopped { .. } => DispatchRequest::Finished,
        }
    }

    /// The machine's internal consistency.
    pub closed spec fn wf(&self) -> bool {
        let n = self.invocations@.len();
        &&& self.index <= n
        &&& self.results@.len() == self.index
        &&& forall|k: int| 0 <= k < self.index ==> (#[trigger] self.results@[k]).invocation@ == self.invocations@[k]@
        &&& match self.phase {
            DispatchPhase::Before { hook } => self.index < n && hook < self.hooks,
            DispatchPhase::Invoke => self.index < n,
            DispatchPhase::Cleanup { hook, upto, .. } => self.index < n && hook < upto && upto <= self.hooks,
            DispatchPhase::After { hook, result, .. } =>
                self.index < n && hook < self.hooks && result.invocation@ == self.invocations@[self.index as int]@,
            DispatchPhase::Done => self.index == n,
            DispatchPhase::Stopped { .. } => true,
        }
    }

    /// How many replies, at most, the dispatch still needs before it is over.
    pub closed spec fn remaining(&self) -> nat {
        let k = 3 * self.hooks + 3;
        let local: int = match self.phase {
            DispatchPhase::Before { hook } => 3 * self.hooks + 2 - hook,
            DispatchPhase::Invoke => 2 * self.hooks + 1,
            DispatchPhase::Cleanup { hook, upto, .. } => upto - hook,
            DispatchPhase::After { hook, .. } => self.hooks - hook,
            DispatchPhase::Done => 0,
            DispatchPhase::Stopped { .. } => 0,
        };
        match self.phase {
            DispatchPhase::Done => 0,
            DispatchPhase::Stopped { .. } => 0,
            _ => ((self.invocations@.len() - 1 - self.index) * k + local + 1) as nat,
        }
    }

    /// A dispatcher for `invocations` with `hook_count` hooks.
    pub fn new(invocations: Vec<ToolInvocation>, hook_count: usize) -> (r: ToolDispatcher)
        ensures
            r.wf(),
            r.invocations() == invocations@,
            r.hooks() == hook_count,
            r.index() == 0,
            r.results() == Seq::<ToolInvocationResult>::empty(),
            r.events() == Seq::<DispatchTraceEvent>::empty(),
            r.phase() == r.entry(0),
    {
        let phase = if invocations.len() == 0 {
            DispatchPhase::Done
        } else if hook_count > 0 {
            DispatchPhase::Before { hook: 0 }
        } else {
            DispatchPhase::Invoke
        };
        ToolDispatcher {
            invocations,
            hooks: hook_count,
            index: 0,
            phase,
            results: Vec::new(),
            trace: DispatchTrace::new(),
        }
    }

    /// The call to make next.
    pub fn request(&self) -> (r: DispatchRequest)
        ensures
            r == self.pending(),
    {
        let i = self.index;
        match &self.phase {
            DispatchPhase::Before { hook } => DispatchRequest::Before { invocation_index: i, hook_index: *hook },
            DispatchPhase::Invoke => DispatchRequest::Invoke { invocation_index: i },
            DispatchPhase::Cleanup { hook, .. } => DispatchRequest::Cleanup { invocation_index: i, hook_index: *hook },
            DispatchPhase::After { hook, .. } => DispatchRequest::After { invocation_index: i, hook_index: *hook },
            DispatchPhase::Done => DispatchRequest::Finished,
            DispatchPhase::Stopped { .. } => DispatchRequest::Finished,
        }
    }

    /// The invocation at `i`.
    pub fn invocation(&self, i: usize) -> (r: &ToolInvocation)
        requires
            i < self.invocations().len(),
        ensures
            *r == self.invocations()[i as int],
    {
        &self.invocations[i]
    }

    /// The error the hooks are being notified of (during cleanup).
    pub fn pending_error(&self) -> (r: &KernelError)
        requires
            self.phase() is Cleanup,
        ensures
            *r == self.phase()->Cleanup_error,
    {
        match &self.phase {
            DispatchPhase::Cleanup { error, .. } => error,
            _ => { proof { assert(false); } unreached() },
        }
    }

    /// The result and outcome the `after` hooks are being shown.
    pub fn pending_result(&self) -> (r: (&ToolInvocationResult, &ToolInvocationOutcome))
        requires
            self.phase() is After,
        ensures
            *r.0 == self.phase()->After_result,
            *r.1 == self.phase()->After_outcome,
    {
        match &self.phase {
            DispatchPhase::After { result, outcome, .. } => (result, outcome),
            _ => { proof { assert(false); } unreached() },
        }
    }

    /// The trace recorded so far.
    pub fn trace(&self) -> (r: &DispatchTrace)
        ensures
            r@ == self.events(),
    {
        &self.trace
    }

    /// Hands back the reply of the `before_invocation` call that
    /// [`Self::request`] asked for.
    ///
    /// The decision is recorded. `Continue` moves to the next hook, or to the
    /// tool after the last one; `Skip` takes its output as the invocation's
    /// result and moves to the `after` hooks; `Terminate` stops dispatch with
    /// [`KernelError::ToolDispatchTerminated`] after notifying every hook. An
    /// error is recorded and stops dispatch after notifying exactly the hooks
    /// before this one (those that answered `Continue`).
    pub fn before_replied(&mut self, reply: Result<ToolDispatchAction, KernelError>)
        requires
            old(self).wf(),
            old(self).phase() is Before,
        ensures
            final(self).wf(),
            final(self).remaining() < old(self).remaining(),
            final(self).invocations() == old(self).invocations(),
            final(self).hooks() == old(self).hooks(),
            final(self).index() == old(self).index(),
            final(self).results() == old(self).results(),
            ({
                let i = old(self).index() as usize;
                let h = old(self).phase()->Before_hook;
                let inv = old(self).invocations()[i as int];
                match reply {
                    Ok(action) => {
                        &&& final(self).events() == old(self).events().push(
                            DispatchTraceEvent::HookBefore { invocation_index: i, hook_index: h, decision: traced_action(action) },
                        )
                        &&& match action {
                            ToolDispatchAction::Continue => final(self).phase() == (if h + 1 < old(self).hooks() {
                                DispatchPhase::Before { hook: (h + 1) as usize }
                            } else {
                                DispatchPhase::Invoke
                            }),
                            ToolDispatchAction::Skip { output, reason } => final(self).phase() matches DispatchPhase::After { hook, result, outcome }
                                && hook == 0 && result.invocation@ == inv@ && result.output == output
                                && outcome == (ToolInvocationOutcome::Skipped { reason }),
                            ToolDispatchAction::Terminate { reason } => final(self).phase() == (DispatchPhase::Cleanup {
                                hook: 0,
                                upto: old(self).hooks() as usize,
                                error: KernelError::ToolDispatchTerminated(reason),
                                closing: TracedOutcome::Terminated { reason },
                            }),
                        }
                    },
                    Err(e) => exists|m: String| {
                        &&& message_of(e, m)
                        &&& if h > 0 {
                            &&& final(self).events() == old(self).events().push(
                                DispatchTraceEvent::HookBeforeError { invocation_index: i, hook_index: h, message: m },
                            )
                            &&& final(self).phase() == (DispatchPhase::Cleanup {
                                hook: 0,
                                upto: h,
                                error: e,
                                closing: TracedOutcome::Failed { message: m },
                            })
                        } else {
                            &&& final(self).events() == old(self).events().push(
                                DispatchTraceEvent::HookBeforeError { invocation_index: i, hook_index: h, message: m },
                            ).push(DispatchTraceEvent::InvocationOutcome { invocation_index: i, outcome: TracedOutcome::Failed { message: m } })
                            &&& final(self).phase() == (DispatchPhase::Stopped { error: e })
                        }
                    },
                }
            }),
    {
        let i = self.index;
        let mut phase = DispatchPhase::Done;
        std::mem::swap(&mut phase, &mut self.phase);
        let h = match phase {
            DispatchPhase::Before { hook } => hook,
            _ => { proof { assert(false); } 0 },
        };
        proof {
            lemma_remaining_step(self.invocations@.len(), self.index as nat, self.hooks as nat);
        }
        match reply {
            Ok(action) => {
                let decision = TracedAction::from(&action);
                self.trace.push(DispatchTraceEvent::HookBefore { invocation_index: i, hook_index: h, decision });
                match action {
                    ToolDispatchAction::Continue => {
                        if h + 1 < self.hooks {
                            self.phase = DispatchPhase::Before { hook: h + 1 };
                        } else {
                            self.phase = DispatchPhase::Invoke;
                        }
                    },
                    ToolDispatchAction::Skip { output, reason } => {
                        let result = ToolInvocationResult { invocation: self.invocations[i].copy(), output };
                        self.phase = DispatchPhase::After {
                            hook: 0,
                            result,
                            outcome: ToolInvocationOutcome::Skipped { reason },
                        };
                    },
                    ToolDispatchAction::Terminate { reason } => {
                        let closing = TracedOutcome::Terminated { reason: reason.clone() };
                        self.phase = DispatchPhase::Cleanup {
                            hook: 0,
                            upto: self.hooks,
                            error: KernelError::ToolDispatchTerminated(reason),
                            closing,
                        };
                    },
                }
            },
            Err(e) => {
                let m = e.message();
                proof {
                    assert(message_of(e, m));
                }
                self.trace.push(DispatchTraceEvent::HookBeforeError { invocation_index: i, hook_index: h, message: m.clone() });
                if h > 0 {
                    self.phase = DispatchPhase::Cleanup { hook: 0, upto: h, error: e, closing: TracedOutcome::Failed { message: m } };
                } else {
                    self.trace.push(DispatchTraceEvent::InvocationOutcome { invocation_index: i, outcome: TracedOutcome::Failed { message: m } });
                    self.phase = DispatchPhase::Stopped { error: e };
                }
            },
        }
    }

    /// Hands back the reply of the tool run that [`Self::request`] asked for.
    ///
    /// An output completes the invocation: the `after` hooks run on it, or,
    /// with no hooks, it is recorded and dispatch moves to the next
    /// invocation. An error stops dispatch after notifying every hook.
    pub fn tool_replied(&mut self, reply: Result<JsonValue, KernelError>)
        requires
            old(self).wf(),
            old(self).phase() is Invoke,
        ensures
            final(self).wf(),
            final(self).remaining() < old(self).remaining(),
            final(self).invocations() == old(self).invocations(),
            final(self).hooks() == old(self).hooks(),
            ({
                let i = old(self).index() as usize;
                let inv = old(self).invocations()[i as int];
                match reply {
                    Ok(output) => if old(self).hooks() > 0 {
                        &&& final(self).index() == old(self).index()
                        &&& final(self).results() == old(self).results()
                        &&& final(self).events() == old(self).events()
                        &&& final(self).phase() matches DispatchPhase::After { hook, result, outcome }
                            && hook == 0 && result.invocation@ == inv@ && result.output == output
                            && outcome == ToolInvocationOutcome::Completed
                    } else {
                        &&& final(self).index() == old(self).index() + 1
                        &&& final(self).results().len() == old(self).results().len() + 1
                        &&& final(self).results().drop_last() == old(self).results()
                        &&& final(self).results().last().invocation@ == inv@
                        &&& final(self).results().last().output == output
                        &&& final(self).events() == old(self).events().push(
                            DispatchTraceEvent::InvocationOutcome { invocation_index: i, outcome: TracedOutcome::Completed },
                        )
                        &&& final(self).phase() == final(self).entry(final(self).index())
                    },
                    Err(e) => exists|m: String| {
                        &&& message_of(e, m)
                        &&& final(self).index() == old(self).index()
                        &&& final(self).results() == old(self).results()
                        &&& if old(self).hooks() > 0 {
                            &&& final(self).events() == old(self).events()
                            &&& final(self).phase() == (DispatchPhase::Cleanup {
                                hook: 0,
                                upto: old(self).hooks() as usize,
                                error: e,
                                closing: TracedOutcome::Failed { message: m },
                            })
                        } else {
                            &&& final(self).events() == old(self).events().push(
                                DispatchTraceEvent::InvocationOutcome { invocation_index: i, outcome: TracedOutcome::Failed { message: m } },
                            )
                            &&& final(self).phase() == (DispatchPhase::Stopped { error: e })
                        }
                    },
                }
            }),
    {
        let i = self.index;
        proof {
            lemma_remaining_step(self.invocations@.len(), self.index as nat, self.hooks as nat);
        }
        match reply {
            Ok(output) => {
                let result = ToolInvocationResult { invocation: self.invocations[i].copy(), output };
                if self.hooks > 0 {
                    self.phase = DispatchPhase::After { hook: 0, result, outcome: ToolInvocationOutcome::Completed };
                } else {
                    self.trace.push(DispatchTraceEvent::InvocationOutcome { invocation_index: i, outcome: TracedOutcome::Completed });
                    self.results.push(result);
                    self.advance();
                }
            },
            Err(e) => {
                let m = e.message();
                proof {
                    assert(message_of(e, m));
                }
                if self.hooks > 0 {
                    self.phase = DispatchPhase::Cleanup {
                        hook: 0,
                        upto: self.hooks,
                        error: e,
                        closing: TracedOutcome::Failed { message: m },
                    };
                } else {
                    self.trace.push(DispatchTraceEvent::InvocationOutcome { invocation_index: i, outcome: TracedOutcome::Failed { message: m } });
                    self.phase = DispatchPhase::Stopped { error: e };
                }
            },
        }
    }

    /// Hands back the reply of the `on_invocation_error` call that
    /// [`Self::request`] asked for.
    ///
    /// Success records the cleanup and moves to the next hook to notify;
    /// after the last one the closing outcome is recorded and dispatch stops
    /// with the pending error. An error from the hook stops dispatch at once
    /// with that error.
    pub fn cleanup_replied(&mut self, reply: Result<(), KernelError>)
        requires
            old(self).wf(),
            old(self).phase() is Cleanup,
        ensures
            final(self).wf(),
            final(self).remaining() < old(self).remaining(),
            final(self).invocations() == old(self).invocations(),
            final(self).hooks() == old(self).hooks(),
            final(self).index() == old(self).index(),
            final(self).results() == old(self).results(),
            ({
                let i = old(self).index() as usize;
                let h = old(self).phase()->Cleanup_hook;
                let upto = old(self).phase()->Cleanup_upto;
                let error = old(self).phase()->Cleanup_error;
                let closing = old(self).phase()->Cleanup_closing;
                match reply {
                    Ok(()) => if h + 1 < upto {
                        &&& final(self).events() == old(self).events().push(
                            DispatchTraceEvent::HookCleanup { invocation_index: i, hook_index: h },
                        )
                        &&& final(self).phase() == (DispatchPhase::Cleanup { hook: (h + 1) as usize, upto, error, closing })
                    } else {
                        &&& final(self).events() == old(self).events().push(
                            DispatchTraceEvent::HookCleanup { invocation_index: i, hook_index: h },
                        ).push(DispatchTraceEvent::InvocationOutcome { invocation_index: i, outcome: closing })
                        &&& final(self).phase() == (DispatchPhase::Stopped { error })
                    },
                    Err(e) => {
                        &&& final(self).events() == old(self).events()
                        &&& final(self).phase() == (DispatchPhase::Stopped { error: e })
                    },
                }
            }),
    {
        let i = self.index;
        let mut phase = DispatchPhase::Done;
        std::mem::swap(&mut phase, &mut self.phase);
        proof {
            lemma_remaining_step(self.invocations@.len(), self.index as nat, self.hooks as nat);
        }
        match phase {
            DispatchPhase::Cleanup { hook, upto, error, closing } => {
                match reply {
                    Ok(()) => {
                        self.trace.push(DispatchTraceEvent::HookCleanup { invocation_index: i, hook_index: hook });
                        if hook + 1 < upto {
                            self.phase = DispatchPhase::Cleanup { hook: hook + 1, upto, error, closing };
                        } else {
                            self.trace.push(DispatchTraceEvent::InvocationOutcome { invocation_index: i, outcome: closing });
                            self.phase = DispatchPhase::Stopped { error };
                        }
                    },
                    Err(e) => {
                        self.phase = DispatchPhase::Stopped { error: e };
                    },
                }
            },
            _ => {
                proof {
                    assert(false);
                }
            },
        }
    }

    /// Hands back the reply of the `after_invocation_with_outcome` call that
    /// [`Self::request`] asked for.
    ///
    /// Success records the hook and moves to the next one; after the last
    /// one the invocation's outcome and result are recorded and dispatch
    /// moves to the next invocation. An error from the hook stops dispatch at
    /// once with that error.
    pub fn after_replied(&mut self, reply: Result<(), KernelError>)
        requires
            old(self).wf(),
            old(self).phase() is After,
        ensures
            final(self).wf(),
            final(self).remaining() < old(self).remaining(),
            final(self).invocations() == old(self).invocations(),
            final(self).hooks() == old(self).hooks(),
            ({
                let i = old(self).index() as usize;
                let h = old(self).phase()->After_hook;
                let result = old(self).phase()->After_result;
                let outcome = old(self).phase()->After_outcome;
                match reply {
                    Ok(()) => if h + 1 < old(self).hooks() {
                        &&& final(self).index() == old(self).index()
                        &&& final(self).results() == old(self).results()
                        &&& final(self).events() == old(self).events().push(
                            DispatchTraceEvent::HookAfter { invocation_index: i, hook_index: h },
                        )
                        &&& final(self).phase() == (DispatchPhase::After { hook: (h + 1) as usize, result, outcome })
                    } else {
                        &&& final(self).index() == old(self).index() + 1
                        &&& final(self).results() == old(self).results().push(result)
                        &&& final(self).events() == old(self).events().push(
                            DispatchTraceEvent::HookAfter { invocation_index: i, hook_index: h },
                        ).push(DispatchTraceEvent::InvocationOutcome { invocation_index: i, outcome: traced_outcome(outcome) })
                        &&& final(self).phase() == final(self).entry(final(self).index())
                    },
                    Err(e) => {
                        &&& final(self).index() == old(self).index()
                        &&& final(self).results() == old(self).results()
                        &&& final(self).events() == old(self).events()
                        &&& final(self).phase() == (DispatchPhase::Stopped { error: e })
                    },
                }
            }),
    {
        let i = self.index;
        let mut phase = DispatchPhase::Done;
        std::mem::swap(&mut phase, &mut self.phase);
        proof {
            lemma_remaining_step(self.invocations@.len(), self.index as nat, self.hooks as nat);
        }
        match phase {
            DispatchPhase::After { hook, result, outcome } => {
                match reply {
                    Ok(()) => {
                        self.trace.push(DispatchTraceEvent::HookAfter { invocation_index: i, hook_index: hook });
                        if hook + 1 < self.hooks {
                            self.phase = DispatchPhase::After { hook: hook + 1, result, outcome };
                        } else {
                            let traced = match outcome {
                                ToolInvocationOutcome::Completed => TracedOutcome::Completed,
                                ToolInvocationOutcome::Skipped { reason } => TracedOutcome::Skipped { reason },
                            };
                            self.trace.push(DispatchTraceEvent::InvocationOutcome { invocation_index: i, outcome: traced });
                            self.results.push(result);
                            self.advance();
                        }
                    },
                    Err(e) => {
                        self.phase = DispatchPhase::Stopped { error: e };
                    },
                }
            },
            _ => {
                proof {
                    assert(false);
                }
            },
        }
    }

    /// The outcome of a dispatch that is over: every result in invocation
    /// order, or the error that stopped it; and the trace.
    pub fn finish(self) -> (r: (Result<Vec<ToolInvocationResult>, KernelError>, DispatchTrace))
        requires
            self.wf(),
            self.pending() is Finished,
        ensures
            r.1@ == self.events(),
            match self.phase() {
                DispatchPhase::Stopped { error } => r.0 == Err::<Vec<ToolInvocationResult>, KernelError>(error),
                _ => r.0 matches Ok(v) && v@ == self.results()
                    && v@.len() == self.invocations().len()
                    && forall|k: int| 0 <= k < v@.len() ==> (#[trigger] v@[k]).invocation@ == self.invocations()[k]@,
            },
    {
        match self.phase {
            DispatchPhase::Stopped { error } => (Err(error), self.trace),
            _ => (Ok(self.results), self.trace),
        }
    }

    /// Moves on to the next invocation after the current one's result was recorded.
    fn advance(&mut self)
        requires
            old(self).index < old(self).invocations.len(),
        ensures
            final(self).index == old(self).index + 1,
            final(self).phase == final(self).entry(final(self).index()),
            final(self).invocations == old(self).invocations,
            final(self).hooks == old(self).hooks,
            final(self).results == old(self).results,
            final(self).trace == old(self).trace,
    {
        self.index = self.index + 1;
        if self.index == self.invocations.len() {
            self.phase = DispatchPhase::Done;
        } else if self.hooks > 0 {
            self.phase = DispatchPhase::Before { hook: 0 };
        } else {
            self.phase = DispatchPhase::Invoke;
        }
    }
}


/// Bounded result of dispatching one [`ToolInvocation`]: the model-visible
/// companion of [`ToolInvocationResult`].
#[derive(Debug, PartialEq)]
pub struct BoundedToolInvocationResult {
    /// The normalized invocation that was dispatched.
    pub invocation: ToolInvocation,
    /// Bounded tool output plus deterministic truncation metadata.
    pub envelope: ToolResultEnvelope,
}

/// Bounds every dispatch result with `config`, keeping their order.
pub fn bound_invocation_results(results: Vec<ToolInvocationResult>, config: &ToolResultEnvelopeConfig) -> (r: Vec<
    BoundedToolInvocationResult,
>)
    ensures
        r@.len() == results@.len(),
        forall|k: int|
            0 <= k < r@.len() ==> (#[trigger] r@[k]).invocation == results@[k].invocation && envelope_of(
                r@[k].envelope,
                bound_spec(results@[k].output@, *config).0,
                bound_spec(results@[k].output@, *config).1,
            ),
{
    let ghost all = results@;
    let mut out: Vec<BoundedToolInvocationResult> = Vec::new();
    for result in it: results.into_iter()
        invariant
            it.seq() == all,
            out@.len() == it.index(),
            forall|k: int|
                0 <= k < it.index() ==> (#[trigger] out@[k]).invocation == all[k].invocation && envelope_of(
                    out@[k].envelope,
                    bound_spec(all[k].output@, *config).0,
                    bound_spec(all[k].output@, *config).1,
                ),
    {
        let ToolInvocationResult { invocation, output } = result;
        let envelope = ToolResultEnvelope::bound(output, config);
        out.push(BoundedToolInvocationResult { invocation, envelope });
    }
    out
}
} // verus!
