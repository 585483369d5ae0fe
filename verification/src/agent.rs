//! The decisions of an agent step: which skills of the chain run, which
//! are skipped, and when the investigation is concluded.
//!
//! For each skill of the chain, in order: once a skill has concluded the
//! investigation (and short-circuiting is on) every later skill is skipped
//! without being asked; otherwise a skill that does not apply is skipped,
//! and one that applies runs. A skill whose outcome asks to conclude or
//! discard concludes the investigation.

use vstd::prelude::*;

use crate::json::JsonValue;

verus! {

/// Hint a skill may emit to drive subsequent skill selection.
#[derive(Debug, Clone, PartialEq)]
pub enum NextAction {
    /// Suggest a follow-up skill by id.
    RunSkill(String),
    /// Suggest invoking a named tool with prepared args.
    InvokeTool { tool: String, args: JsonValue },
    /// Stop the investigation; sufficient evidence has been gathered.
    Conclude,
    /// Drop the investigation; the entity is benign.
    Discard,
}

/// Whether any of `actions` concludes or discards the investigation.
pub open spec fn concludes_spec(actions: Seq<NextAction>) -> bool {
    exists|i: int| 0 <= i < actions.len() && (#[trigger] actions[i] is Conclude || actions[i] is Discard)
}

/// Whether any of `actions` concludes or discards the investigation.
pub fn concludes(actions: &[NextAction]) -> (r: bool)
    ensures
        r == concludes_spec(actions@),
{
    let mut i: usize = 0;
    while i < actions.len()
        invariant
            i <= actions@.len(),
            forall|k: int| 0 <= k < i ==> !(#[trigger] actions@[k] is Conclude || actions@[k] is Discard),
        decreases actions@.len() - i,
    {
        match &actions[i] {
            NextAction::Conclude | NextAction::Discard => {
                return true;
            },
            _ => {},
        }
        i = i + 1;
    }
    false
}

/// The call the step loop asks its driver to make next.
#[derive(Debug, PartialEq, Eq, Structural, Clone, Copy)]
pub enum StepRequest {
    /// Skill `index` is skipped because the investigation concluded: notify
    /// the hooks and acknowledge with [`SkillChain::skip_acknowledged`].
    Skip { index: usize },
    /// Ask skill `index` whether it applies; answer with [`SkillChain::applies_replied`].
    Applies { index: usize },
    /// Run skill `index`; answer with [`SkillChain::executed`].
    Execute { index: usize },
    /// Every skill was considered.
    Finished,
}

/// The step loop over a chain of skills.
pub struct SkillChain {
    ids: Vec<String>,
    short_circuit: bool,
    index: usize,
    asked: bool,
    concluded: bool,
    run: Vec<String>,
    skipped: Vec<String>,
}

impl SkillChain {
    /// The skill ids of the chain.
    pub closed spec fn ids(&self) -> Seq<String> {
        self.ids@
    }

    /// Whether concluding stops the chain.
    pub closed spec fn short_circuit(&self) -> bool {
        self.short_circuit
    }

    /// Index of the skill being considered.
    pub closed spec fn index(&self) -> nat {
        self.index as nat
    }

    /// Whether the current skill was found applicable.
    pub closed spec fn asked(&self) -> bool {
        self.asked
    }

    /// Whether a skill concluded the investigation.
    pub closed spec fn concluded(&self) -> bool {
        self.concluded
    }

    /// Ids of the skills run so far.
    pub closed spec fn run(&self) -> Seq<String> {
        self.run@
    }

    /// Ids of the skills skipped so far.
    pub closed spec fn skipped(&self) -> Seq<String> {
        self.skipped@
    }

    /// The request for the current state.
    pub open spec fn pending(&self) -> StepRequest {
        if self.index() >= self.ids().len() {
            StepRequest::Finished
        } else if self.concluded() && self.short_circuit() {
            StepRequest::Skip { index: self.index() as usize }
        } else if self.asked() {
            StepRequest::Execute { index: self.index() as usize }
        } else {
            StepRequest::Applies { index: self.index() as usize }
        }
    }

    /// The chain's internal consistency: every skill before the current one
    /// was either run or skipped.
    pub closed spec fn wf(&self) -> bool {
        &&& self.index <= self.ids.len()
        &&& self.run@.len() + self.skipped@.len() == self.index
        &&& self.asked ==> self.index < self.ids@.len() && !(self.concluded && self.short_circuit)
    }

    /// A step over the skills `ids`.
    pub fn new(ids: Vec<String>, short_circuit: bool) -> (r: SkillChain)
        ensures
            r.wf(),
            r.ids() == ids@,
            r.short_circuit() == short_circuit,
            r.index() == 0,
            !r.asked(),
            !r.concluded(),
            r.run().len() == 0,
            r.skipped().len() == 0,
    {
        SkillChain { ids, short_circuit, index: 0, asked: false, concluded: false, run: Vec::new(), skipped: Vec::new() }
    }

    /// The call to make next.
    pub fn request(&self) -> (r: StepRequest)
        ensures
            r == self.pending(),
    {
        if self.index >= self.ids.len() {
            StepRequest::Finished
        } else if self.concluded && self.short_circuit {
            StepRequest::Skip { index: self.index }
        } else if self.asked {
            StepRequest::Execute { index: self.index }
        } else {
            StepRequest::Applies { index: self.index }
        }
    }

    /// The id of skill `i`.
    pub fn id(&self, i: usize) -> (r: &str)
        requires
            i < self.ids().len(),
        ensures
            r@ == self.ids()[i as int]@,
    {
        self.ids[i].as_str()
    }

    /// Records a skip requested by [`StepRequest::Skip`].
    pub fn skip_acknowledged(&mut self)
        requires
            old(self).wf(),
            old(self).pending() is Skip,
        ensures
            final(self).wf(),
            final(self).ids() == old(self).ids(),
            final(self).short_circuit() == old(self).short_circuit(),
            final(self).concluded() == old(self).concluded(),
            final(self).index() == old(self).index() + 1,
            !final(self).asked(),
            final(self).run() == old(self).run(),
            final(self).skipped() == old(self).skipped().push(old(self).ids()[old(self).index() as int]),
    {
        let id = self.ids[self.index].clone();
        self.skipped.push(id);
        self.index = self.index + 1;
    }

    /// Hands back whether skill [`StepRequest::Applies`] asked about applies:
    /// one that does not is skipped; one that does is to be run next.
    pub fn applies_replied(&mut self, applies: bool)
        requires
            old(self).wf(),
            old(self).pending() is Applies,
        ensures
            final(self).wf(),
            final(self).ids() == old(self).ids(),
            final(self).short_circuit() == old(self).short_circuit(),
            final(self).concluded() == old(self).concluded(),
            final(self).run() == old(self).run(),
            if applies {
                &&& final(self).index() == old(self).index()
                &&& final(self).asked()
                &&& final(self).skipped() == old(self).skipped()
            } else {
                &&& final(self).index() == old(self).index() + 1
                &&& !final(self).asked()
                &&& final(self).skipped() == old(self).skipped().push(old(self).ids()[old(self).index() as int])
            },
    {
        if applies {
            self.asked = true;
        } else {
            let id = self.ids[self.index].clone();
            self.skipped.push(id);
            self.index = self.index + 1;
        }
    }

    /// Records that skill [`StepRequest::Execute`] ran, and whether its
    /// outcome concludes the investigation.
    pub fn executed(&mut self, concludes: bool)
        requires
            old(self).wf(),
            old(self).pending() is Execute,
        ensures
            final(self).wf(),
            final(self).ids() == old(self).ids(),
            final(self).short_circuit() == old(self).short_circuit(),
            final(self).concluded() == (old(self).concluded() || concludes),
            final(self).index() == old(self).index() + 1,
            !final(self).asked(),
            final(self).run() == old(self).run().push(old(self).ids()[old(self).index() as int]),
            final(self).skipped() == old(self).skipped(),
    {
        let id = self.ids[self.index].clone();
        self.run.push(id);
        if concludes {
            self.concluded = true;
        }
        self.asked = false;
        self.index = self.index + 1;
    }

    /// The skills run, the skills skipped, and whether the investigation
    /// was concluded.
    pub fn finish(self) -> (r: (Vec<String>, Vec<String>, bool))
        requires
            self.wf(),
            self.pending() is Finished,
        ensures
            r.0@ == self.run(),
            r.1@ == self.skipped(),
            r.2 == self.concluded(),
            r.0@.len() + r.1@.len() == self.ids().len(),
    {
        (self.run, self.skipped, self.concluded)
    }
}

/// Once the investigation is concluded with short-circuiting on, no further
/// skill of the chain is asked or run: the only request left is a skip (or
/// the end of the chain).
pub proof fn law_conclusion_stops_chain(chain: SkillChain)
    requires
        chain.wf(),
        chain.concluded(),
        chain.short_circuit(),
    ensures
        chain.pending() is Skip || chain.pending() is Finished,
{
}

} // verus!
