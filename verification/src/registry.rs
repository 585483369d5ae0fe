//! Kernel errors and the catalog logic of the tool and skill registries.

use vstd::prelude::*;

use crate::json::{lemma_seq_le_trans, lemma_seq_lt_irrefl, seq_lt};
use crate::text::concat;

verus! {

/// Errors the kernel reports.
#[derive(Debug)]
pub enum KernelError {
    /// A tool was not found in the registry.
    ToolNotFound(String),
    /// A tool is not authorised for the agent.
    ToolNotAuthorised(String),
    /// A skill was not found in the registry.
    SkillNotFound(String),
    /// A tool invocation failed.
    ToolFailed(String),
    /// The tool ran but the operation was inapplicable to its state.
    ToolNotApplicable(String),
    /// A skill failed.
    SkillFailed(String),
    /// An argument was invalid.
    InvalidArgument(String),
    /// Tool-call markers in model output could not be parsed.
    NormalizerFailed(String),
    /// A dispatch hook stopped a tool dispatch loop.
    ToolDispatchTerminated(String),
    /// A budget or accounting hook failed.
    BudgetFailed(String),
    /// A JSON (de)serialisation error.
    Serde(serde_json::Error),
}

/// The prefix and payload of an error's rendering, `None` for [`KernelError::Serde`].
pub open spec fn error_parts(e: KernelError) -> Option<(Seq<char>, Seq<char>)> {
    match e {
        KernelError::ToolNotFound(s) => Some(("tool `"@, s@ + "` not found in registry"@)),
        KernelError::ToolNotAuthorised(s) => Some(("tool `"@, s@ + "` is not authorised for this agent"@)),
        KernelError::SkillNotFound(s) => Some(("skill `"@, s@ + "` not found in registry"@)),
        KernelError::ToolFailed(s) => Some(("tool invocation failed: "@, s@)),
        KernelError::ToolNotApplicable(s) => Some(("tool not applicable: "@, s@)),
        KernelError::SkillFailed(s) => Some(("skill execution failed: "@, s@)),
        KernelError::InvalidArgument(s) => Some(("invalid argument: "@, s@)),
        KernelError::NormalizerFailed(s) => Some(("tool-call normalizer failed: "@, s@)),
        KernelError::ToolDispatchTerminated(s) => Some(("tool dispatch terminated: "@, s@)),
        KernelError::BudgetFailed(s) => Some(("budget failed: "@, s@)),
        KernelError::Serde(_) => None,
    }
}

/// The rendering of an error, where the library knows it.
pub open spec fn error_text(e: KernelError) -> Option<Seq<char>> {
    match error_parts(e) {
        Some((a, b)) => Some(a + b),
        None => None,
    }
}

/// The `Display` text of a `serde_json::Error`.
///
/// Trusted: renders the error with `to_string`; nothing is stated of the text.
#[verifier::external_body]
fn serde_error_string(e: &serde_json::Error) -> String {
    e.to_string()
}

impl KernelError {
    /// The error's message, as its `Display` renders it.
    pub fn message(&self) -> (r: String)
        ensures
            error_text(*self) matches Some(t) ==> r@ == t,
    {
        match self {
            KernelError::ToolNotFound(s) => concat("tool `", concat(s.as_str(), "` not found in registry").as_str()),
            KernelError::ToolNotAuthorised(s) => concat("tool `", concat(s.as_str(), "` is not authorised for this agent").as_str()),
            KernelError::SkillNotFound(s) => concat("skill `", concat(s.as_str(), "` not found in registry").as_str()),
            KernelError::ToolFailed(s) => concat("tool invocation failed: ", s.as_str()),
            KernelError::ToolNotApplicable(s) => concat("tool not applicable: ", s.as_str()),
            KernelError::SkillFailed(s) => concat("skill execution failed: ", s.as_str()),
            KernelError::InvalidArgument(s) => concat("invalid argument: ", s.as_str()),
            KernelError::NormalizerFailed(s) => concat("tool-call normalizer failed: ", s.as_str()),
            KernelError::ToolDispatchTerminated(s) => concat("tool dispatch terminated: ", s.as_str()),
            KernelError::BudgetFailed(s) => concat("budget failed: ", s.as_str()),
            KernelError::Serde(e) => serde_error_string(e),
        }
    }
}


/// Snapshot record for a visible skill in a skill registry.
#[derive(Debug, Clone, PartialEq, Eq)]
pub struct SkillDescriptor {
    /// Stable skill identifier.
    pub id: String,
    /// Human-readable skill description; empty when the skill has none.
    pub description: String,
}

/// An entry of a catalog snapshot, listed by its key.
pub trait CatalogEntry {
    /// The key the catalog is sorted by.
    spec fn catalog_key(&self) -> Seq<char>;

    /// The key the catalog is sorted by.
    fn key(&self) -> (r: &str)
        ensures
            r@ == self.catalog_key();
}

impl CatalogEntry for SkillDescriptor {
    open spec fn catalog_key(&self) -> Seq<char> {
        self.id@
    }

    fn key(&self) -> (r: &str) {
        self.id.as_str()
    }
}

impl CatalogEntry for crate::tool::ToolSchema {
    open spec fn catalog_key(&self) -> Seq<char> {
        self.name@
    }

    fn key(&self) -> (r: &str) {
        self.name.as_str()
    }
}

/// Where an entry with key `k` goes in a key-sorted catalog: after every
/// entry whose key is not greater.
pub open spec fn catalog_insert_pos<T: CatalogEntry>(s: Seq<T>, k: Seq<char>) -> nat
    decreases s.len(),
{
    if s.len() == 0 {
        0
    } else if !crate::json::seq_lt(k, s.last().catalog_key()) {
        s.len()
    } else {
        catalog_insert_pos(s.drop_last(), k)
    }
}

/// Entries sorted by key in code-point order, stably.
pub open spec fn sort_catalog_spec<T: CatalogEntry>(s: Seq<T>) -> Seq<T>
    decreases s.len(),
{
    if s.len() == 0 {
        Seq::empty()
    } else {
        let sorted = sort_catalog_spec(s.drop_last());
        sorted.insert(catalog_insert_pos(sorted, s.last().catalog_key()) as int, s.last())
    }
}

/// Sorts catalog entries by key, stably.
pub fn sort_catalog<T: CatalogEntry>(entries: Vec<T>) -> (r: Vec<T>)
    ensures
        r@ == sort_catalog_spec(entries@),
{
    let ghost all = entries@;
    let mut out: Vec<T> = Vec::new();
    assert(all.take(0) =~= Seq::<T>::empty());
    for e in it: entries.into_iter()
        invariant
            it.seq() == all,
            out@ == sort_catalog_spec(all.take(it.index() as int)),
    {
        let mut p = out.len();
        assert(out@.take(p as int) =~= out@);
        while p > 0 && crate::json::str_lt(e.key(), out[p - 1].key())
            invariant
                p <= out@.len(),
                catalog_insert_pos(out@, e.catalog_key()) == catalog_insert_pos(out@.take(p as int), e.catalog_key()),
            decreases p,
        {
            assert(out@.take(p as int).drop_last() =~= out@.take(p - 1));
            p = p - 1;
        }
        proof {
            if p > 0 {
                assert(out@.take(p as int).last() == out@[p - 1]);
            } else {
                assert(out@.take(0) =~= Seq::<T>::empty());
            }
            let k = it.index() as int;
            assert(all.take(k + 1).drop_last() =~= all.take(k));
            assert(all.take(k + 1).last() == all[k]);
        }
        out.insert(p, e);
    }
    assert(all.take(all.len() as int) =~= all);
    out
}

/// Entries whose keys never decrease.
pub open spec fn catalog_sorted<T: CatalogEntry>(s: Seq<T>) -> bool {
    forall|i: int, j: int|
        0 <= i < j < s.len() ==> !seq_lt(#[trigger] s[j].catalog_key(), #[trigger] s[i].catalog_key())
}

proof fn lemma_catalog_pos_bound<T: CatalogEntry>(s: Seq<T>, k: Seq<char>)
    ensures
        catalog_insert_pos(s, k) <= s.len(),
    decreases s.len(),
{
    if s.len() > 0 && seq_lt(k, s.last().catalog_key()) {
        lemma_catalog_pos_bound(s.drop_last(), k);
    }
}

proof fn lemma_catalog_insert_sorted<T: CatalogEntry>(s: Seq<T>, x: T)
    requires
        catalog_sorted(s),
    ensures
        catalog_sorted(s.insert(catalog_insert_pos(s, x.catalog_key()) as int, x)),
        forall|k: int|
            0 <= k < catalog_insert_pos(s, x.catalog_key()) ==> !seq_lt(x.catalog_key(), (#[trigger] s[k]).catalog_key()),
        forall|k: int|
            catalog_insert_pos(s, x.catalog_key()) <= k < s.len() ==> seq_lt(x.catalog_key(), (#[trigger] s[k]).catalog_key()),
    decreases s.len(),
{
    let key = x.catalog_key();
    lemma_catalog_pos_bound(s, key);
    if s.len() > 0 && seq_lt(key, s.last().catalog_key()) {
        lemma_catalog_insert_sorted(s.drop_last(), x);
        assert forall|k: int| catalog_insert_pos(s, key) <= k < s.len() implies seq_lt(key, (#[trigger] s[k]).catalog_key()) by {
            if k < s.len() - 1 {
                assert(s.drop_last()[k] == s[k]);
            }
        }
        assert forall|k: int| 0 <= k < catalog_insert_pos(s, key) implies !seq_lt(key, (#[trigger] s[k]).catalog_key()) by {
            assert(s.drop_last()[k] == s[k]);
        }
    } else if s.len() > 0 {
        assert forall|k: int| 0 <= k < s.len() implies !seq_lt(key, (#[trigger] s[k]).catalog_key()) by {
            if k < s.len() - 1 {
                lemma_seq_le_trans(key, s[s.len() - 1].catalog_key(), s[k].catalog_key());
            }
        }
    }
    let p = catalog_insert_pos(s, key) as int;
    let t = s.insert(p, x);
    assert forall|i: int, j: int| 0 <= i < j < t.len() implies !seq_lt(
        #[trigger] t[j].catalog_key(),
        #[trigger] t[i].catalog_key(),
    ) by {
        if i < p && j < p {
            assert(t[i] == s[i] && t[j] == s[j]);
        } else if i < p && j == p {
            assert(t[i] == s[i]);
        } else if i < p {
            assert(t[i] == s[i] && t[j] == s[j - 1]);
        } else if i == p {
            assert(t[j] == s[j - 1]);
            lemma_seq_lt_irrefl(key, s[j - 1].catalog_key());
        } else {
            assert(t[i] == s[i - 1] && t[j] == s[j - 1]);
        }
    }
}

/// Sorting a catalog gives the same entries, with keys in non-decreasing
/// code-point order.
pub proof fn law_sort_catalog<T: CatalogEntry>(s: Seq<T>)
    ensures
        catalog_sorted(sort_catalog_spec(s)),
        sort_catalog_spec(s).to_multiset() == s.to_multiset(),
    decreases s.len(),
{
    broadcast use vstd::seq_lib::group_to_multiset_ensures;
    if s.len() > 0 {
        law_sort_catalog(s.drop_last());
        let sorted = sort_catalog_spec(s.drop_last());
        lemma_catalog_insert_sorted(sorted, s.last());
        lemma_catalog_pos_bound(sorted, s.last().catalog_key());
        let p = catalog_insert_pos(sorted, s.last().catalog_key()) as int;
        vstd::seq_lib::to_multiset_insert(sorted, p, s.last());
        vstd::seq_lib::to_multiset_build(s.drop_last(), s.last());
        assert(s.drop_last().push(s.last()) =~= s);
    }
}

/// Whether tool `name` is visible through a registry scoped to `allowed`
/// (`None`: unrestricted).
pub open spec fn authorised_spec(allowed: Option<Vec<String>>, name: Seq<char>) -> bool {
    match allowed {
        None => true,
        Some(a) => exists|i: int| 0 <= i < a@.len() && (#[trigger] a@[i])@ == name,
    }
}

/// Whether tool `name` is visible through a registry scoped to `allowed`.
pub fn is_authorised(allowed: &Option<Vec<String>>, name: &str) -> (r: bool)
    ensures
        r == authorised_spec(*allowed, name@),
{
    match allowed {
        None => true,
        Some(a) => {
            let mut i: usize = 0;
            while i < a.len()
                invariant
                    i <= a@.len(),
                    *allowed == Some(*a),
                    forall|k: int| 0 <= k < i ==> (#[trigger] a@[k])@ != name@,
                decreases a@.len() - i,
            {
                if crate::text::str_eq(a[i].as_str(), name) {
                    assert(a@[i as int]@ == name@);
                    assert(exists|q: int| 0 <= q < a@.len() && (#[trigger] a@[q])@ == name@);
                    assert(allowed matches Some(x) && x == *a);
                    return true;
                }
                i = i + 1;
            }
            false
        },
    }
}

/// The outcome of looking tool `name` up: refused when the scope does not
/// authorise it, missing when nothing is registered under it.
pub fn tool_lookup(allowed: &Option<Vec<String>>, name: &str, registered: bool) -> (r: Result<(), KernelError>)
    ensures
        !authorised_spec(*allowed, name@) ==> (r matches Err(
            KernelError::ToolNotAuthorised(n),
        ) && n@ == name@),
        authorised_spec(*allowed, name@) && !registered ==> (r matches Err(
            KernelError::ToolNotFound(n),
        ) && n@ == name@),
        authorised_spec(*allowed, name@) && registered ==> r is Ok,
{
    if !is_authorised(allowed, name) {
        return Err(KernelError::ToolNotAuthorised(crate::text::owned(name)));
    }
    if !registered {
        return Err(KernelError::ToolNotFound(crate::text::owned(name)));
    }
    Ok(())
}

/// The outcome of looking skill `id` up: missing when nothing is
/// registered under it.
pub fn skill_lookup(id: &str, registered: bool) -> (r: Result<(), KernelError>)
    ensures
        registered ==> r is Ok,
        !registered ==> (r matches Err(KernelError::SkillNotFound(n)) && n@ == id@),
{
    if registered {
        Ok(())
    } else {
        Err(KernelError::SkillNotFound(crate::text::owned(id)))
    }
}
} // verus!
