//! Deterministic signal-tag routing: an investigation goes to the first
//! registered specialist whose rule matches one of its signals, else to
//! the fallback specialist, with no model in the loop.

use vstd::prelude::*;

use crate::context::Signal;
use crate::text::str_eq;

verus! {

/// One routing rule: any of `signals` present routes to `agent_name`.
/// First match wins.
#[derive(Debug, Clone)]
pub struct RoutingRule {
    pub agent_name: String,
    pub signals: Vec<String>,
}

/// Whether a signal named `name` is present.
pub open spec fn has_signal(signals: Seq<Signal>, name: Seq<char>) -> bool {
    exists|i: int| 0 <= i < signals.len() && (#[trigger] signals[i]).0@ == name
}

/// Whether any of the rule's signals is present.
pub open spec fn rule_matches(rule: RoutingRule, signals: Seq<Signal>) -> bool {
    exists|j: int| 0 <= j < rule.signals@.len() && has_signal(signals, #[trigger] rule.signals@[j]@)
}

/// Whether `names` holds `n`.
pub open spec fn names_contain(names: Seq<String>, n: Seq<char>) -> bool {
    exists|k: int| 0 <= k < names.len() && (#[trigger] names[k])@ == n
}

/// The first rule from `i` on that matches and whose agent is registered.
pub open spec fn first_route(rules: Seq<RoutingRule>, specialists: Seq<String>, signals: Seq<Signal>, i: nat) -> Option<nat>
    decreases rules.len() - i,
{
    if i >= rules.len() {
        None
    } else if rule_matches(rules[i as int], signals) && names_contain(specialists, rules[i as int].agent_name@) {
        Some(i)
    } else {
        first_route(rules, specialists, signals, i + 1)
    }
}

/// The specialist an investigation with `signals` is routed to: the agent
/// of the first matching rule that is registered, else the fallback when it
/// is registered, else none.
pub open spec fn route_spec(
    rules: Seq<RoutingRule>,
    specialists: Seq<String>,
    signals: Seq<Signal>,
    fallback: Option<Seq<char>>,
) -> Option<Seq<char>> {
    match first_route(rules, specialists, signals, 0) {
        Some(i) => Some(rules[i as int].agent_name@),
        None => match fallback {
            Some(f) => if names_contain(specialists, f) {
                Some(f)
            } else {
                None
            },
            None => None,
        },
    }
}

/// Whether a signal named `name` is present.
pub fn signals_contain(signals: &[Signal], name: &str) -> (r: bool)
    ensures
        r == has_signal(signals@, name@),
{
    let mut i: usize = 0;
    while i < signals.len()
        invariant
            i <= signals@.len(),
            forall|k: int| 0 <= k < i ==> (#[trigger] signals@[k]).0@ != name@,
        decreases signals@.len() - i,
    {
        if str_eq(signals[i].0.as_str(), name) {
            return true;
        }
        i = i + 1;
    }
    false
}

fn contains_name(names: &[String], n: &str) -> (r: bool)
    ensures
        r == names_contain(names@, n@),
{
    let mut i: usize = 0;
    while i < names.len()
        invariant
            i <= names@.len(),
            forall|k: int| 0 <= k < i ==> (#[trigger] names@[k])@ != n@,
        decreases names@.len() - i,
    {
        if str_eq(names[i].as_str(), n) {
            return true;
        }
        i = i + 1;
    }
    false
}

impl RoutingRule {
    /// A rule routing any of `signals` to `agent_name`.
    pub fn new(agent_name: &str, signals: &[&str]) -> (r: RoutingRule)
        ensures
            r.agent_name@ == agent_name@,
            r.signals@.len() == signals@.len(),
            forall|i: int| 0 <= i < signals@.len() ==> (#[trigger] r.signals@[i])@ == signals@[i]@,
    {
        let mut out: Vec<String> = Vec::new();
        let mut i: usize = 0;
        while i < signals.len()
            invariant
                i <= signals@.len(),
                out@.len() == i,
                forall|k: int| 0 <= k < i ==> (#[trigger] out@[k])@ == signals@[k]@,
            decreases signals@.len() - i,
        {
            out.push(crate::text::owned(signals[i]));
            i = i + 1;
        }
        RoutingRule { agent_name: crate::text::owned(agent_name), signals: out }
    }

    /// Whether any of the rule's signals is present.
    pub fn matches(&self, signals: &[Signal]) -> (r: bool)
        ensures
            r == rule_matches(*self, signals@),
    {
        let mut j: usize = 0;
        while j < self.signals.len()
            invariant
                j <= self.signals@.len(),
                forall|k: int| 0 <= k < j ==> !has_signal(signals@, #[trigger] self.signals@[k]@),
            decreases self.signals@.len() - j,
        {
            if signals_contain(signals, self.signals[j].as_str()) {
                return true;
            }
            j = j + 1;
        }
        false
    }
}

/// The specialist an investigation with `signals` is routed to, given the
/// names of the registered specialists.
pub fn route_target(rules: &[RoutingRule], specialists: &[String], signals: &[Signal], fallback: &Option<String>) -> (r: Option<String>)
    ensures
        match route_spec(rules@, specialists@, signals@, match fallback { Some(f) => Some(f@), None => None }) {
            Some(n) => r matches Some(x) && x@ == n,
            None => r is None,
        },
{
    let mut i: usize = 0;
    while i < rules.len()
        invariant
            i <= rules@.len(),
            first_route(rules@, specialists@, signals@, 0) == first_route(rules@, specialists@, signals@, i as nat),
        decreases rules@.len() - i,
    {
        if rules[i].matches(signals) && contains_name(specialists, rules[i].agent_name.as_str()) {
            return Some(rules[i].agent_name.clone());
        }
        i = i + 1;
    }
    match fallback {
        Some(f) => {
            if contains_name(specialists, f.as_str()) {
                Some(f.clone())
            } else {
                None
            }
        },
        None => None,
    }
}


/// Whether some signal of `rule` is among `signals` and its agent is among
/// `specialists`, spelled out over the raw names.
pub open spec fn rule_fires(rule: RoutingRule, specialists: Seq<String>, signals: Seq<Signal>) -> bool {
    &&& exists|j: int, k: int|
        0 <= j < rule.signals@.len() && 0 <= k < signals.len() && (#[trigger] signals[k]).0@ == (
        #[trigger] rule.signals@[j])@
    &&& exists|m: int| 0 <= m < specialists.len() && (#[trigger] specialists[m])@ == rule.agent_name@
}

proof fn lemma_first_route_fires(rules: Seq<RoutingRule>, specialists: Seq<String>, signals: Seq<Signal>, i: nat, start: nat)
    requires
        start <= i < rules.len(),
        rule_fires(rules[i as int], specialists, signals),
        forall|i2: int| start <= i2 < i ==> !rule_fires(#[trigger] rules[i2], specialists, signals),
    ensures
        first_route(rules, specialists, signals, start) == Some(i),
    decreases i - start,
{
    let r = rules[start as int];
    if start < i {
        assert(!rule_fires(r, specialists, signals));
        if rule_matches(r, signals) && names_contain(specialists, r.agent_name@) {
            let j = choose|j: int| 0 <= j < r.signals@.len() && has_signal(signals, #[trigger] r.signals@[j]@);
            let k = choose|k: int| 0 <= k < signals.len() && (#[trigger] signals[k]).0@ == r.signals@[j]@;
            let m = choose|m: int| 0 <= m < specialists.len() && (#[trigger] specialists[m])@ == r.agent_name@;
            assert(signals[k].0@ == r.signals@[j]@);
            assert(false);
        }
        lemma_first_route_fires(rules, specialists, signals, i, start + 1);
    } else {
        let (j, k) = choose|j: int, k: int|
            0 <= j < r.signals@.len() && 0 <= k < signals.len() && (#[trigger] signals[k]).0@ == (
            #[trigger] r.signals@[j])@;
        assert(has_signal(signals, r.signals@[j]@));
        assert(rule_matches(r, signals));
        let m = choose|m: int| 0 <= m < specialists.len() && (#[trigger] specialists[m])@ == r.agent_name@;
        assert(names_contain(specialists, r.agent_name@));
    }
}

proof fn lemma_first_route_none(rules: Seq<RoutingRule>, specialists: Seq<String>, signals: Seq<Signal>, start: nat)
    requires
        forall|i2: int| start <= i2 < rules.len() ==> !rule_fires(#[trigger] rules[i2], specialists, signals),
    ensures
        first_route(rules, specialists, signals, start) is None,
    decreases rules.len() - start,
{
    if start < rules.len() {
        let r = rules[start as int];
        assert(!rule_fires(r, specialists, signals));
        if rule_matches(r, signals) && names_contain(specialists, r.agent_name@) {
            let j = choose|j: int| 0 <= j < r.signals@.len() && has_signal(signals, #[trigger] r.signals@[j]@);
            let k = choose|k: int| 0 <= k < signals.len() && (#[trigger] signals[k]).0@ == r.signals@[j]@;
            let m = choose|m: int| 0 <= m < specialists.len() && (#[trigger] specialists[m])@ == r.agent_name@;
            assert(signals[k].0@ == r.signals@[j]@);
            assert(false);
        }
        lemma_first_route_none(rules, specialists, signals, start + 1);
    }
}

/// A rule fires as soon as any one of its signals is present (and its agent
/// is registered): the investigation goes to the agent of the first rule
/// that fires, whatever the fallback.
pub proof fn law_route_first_rule_with_any_signal(
    rules: Seq<RoutingRule>,
    specialists: Seq<String>,
    signals: Seq<Signal>,
    fallback: Option<Seq<char>>,
    i: int,
)
    requires
        0 <= i < rules.len(),
        rule_fires(rules[i], specialists, signals),
        forall|i2: int| 0 <= i2 < i ==> !rule_fires(#[trigger] rules[i2], specialists, signals),
    ensures
        route_spec(rules, specialists, signals, fallback) == Some(rules[i].agent_name@),
{
    lemma_first_route_fires(rules, specialists, signals, i as nat, 0);
}

/// When no rule fires, the investigation goes to the fallback if it is
/// registered, and nowhere otherwise.
pub proof fn law_route_fallback(
    rules: Seq<RoutingRule>,
    specialists: Seq<String>,
    signals: Seq<Signal>,
    fallback: Option<Seq<char>>,
)
    requires
        forall|i2: int| 0 <= i2 < rules.len() ==> !rule_fires(#[trigger] rules[i2], specialists, signals),
    ensures
        route_spec(rules, specialists, signals, fallback) == (match fallback {
            Some(f) => if exists|m: int| 0 <= m < specialists.len() && (#[trigger] specialists[m])@ == f {
                Some(f)
            } else {
                None
            },
            None => None,
        }),
{
    lemma_first_route_none(rules, specialists, signals, 0);
}

} // verus!
