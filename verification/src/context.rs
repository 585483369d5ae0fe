//! Provider-neutral context items and the packer that selects them into a
//! bounded model window.

use vstd::prelude::*;

use crate::json::JsonValue;

verus! {

/// Provider-neutral category of a piece of context.
#[derive(Debug, Clone, PartialEq, Eq, Hash)]
pub enum ContextSourceKind {
    /// Long-term memory, episodic recall, summaries, or structured memory cards.
    Memory,
    /// Result returned by a tool call.
    ToolResult,
    /// Resource lookup such as a graph, baseline, policy, or document store.
    Resource,
    /// File or document content selected for the task.
    File,
    /// Working notes, plans, hypotheses, or other non-durable reasoning state.
    Reasoning,
    /// System, developer, or application instructions carried into context.
    Instruction,
    /// Current user input or task text.
    UserInput,
    /// Caller-defined source kind.
    Other(String),
}

/// Provider-neutral lifecycle state of a projected context item.
#[derive(Debug, Clone, PartialEq, Eq)]
pub enum ContextProjectionState {
    /// Candidate is eligible for packing.
    Candidate,
    /// Candidate was expanded from a source item into derived context.
    Expanded,
    /// Candidate was skipped before packing.
    Skipped,
    /// Candidate was suppressed by caller policy.
    Suppressed,
    /// Candidate was rejected by caller policy.
    Rejected,
    /// Candidate was superseded by a newer or more authoritative item.
    Superseded,
    /// Candidate is stale relative to a newer version.
    Stale,
    /// Candidate conflicts with another item and needs host resolution.
    Conflict,
    /// Candidate was escalated for higher-level handling.
    Escalated,
    /// Caller-defined state.
    Other(String),
}

/// One ranked piece of context that may be packed into a bounded model window.
#[derive(Debug, PartialEq)]
pub struct ContextItem {
    /// Backend-neutral source category.
    pub source: ContextSourceKind,
    /// Stable id inside the source system.
    pub source_id: String,
    /// Zero-based rank after source-local selection.
    pub rank: usize,
    /// The IEEE-754 bits of the relevance score used for ordering within the
    /// source or planner.
    pub score_bits: u64,
    /// Prompt-ready text.
    pub text: String,
    /// Character count estimate for early context packing.
    pub estimated_chars: usize,
    /// Source-specific provenance such as frame id, URI, tool call id, or path.
    pub provenance: JsonValue,
    /// Caller-defined metadata not required for packing.
    pub metadata: JsonValue,
}

impl ContextItem {
    /// A context item with a source, a source id and prompt-ready text; rank
    /// and score zero, the character estimate the text's length, no
    /// provenance or metadata.
    pub fn new(source: ContextSourceKind, source_id: &str, text: &str) -> (r: ContextItem)
        ensures
            r.source == source,
            r.source_id@ == source_id@,
            r.rank == 0,
            r.score_bits == 0,
            r.text@ == text@,
            r.estimated_chars == text@.len(),
            r.provenance@ == crate::json::Json::Null,
            r.metadata@ == crate::json::Json::Null,
    {
        let chars = crate::text::chars_of(text);
        ContextItem {
            source,
            source_id: crate::text::owned(source_id),
            rank: 0,
            score_bits: 0,
            text: crate::text::owned(text),
            estimated_chars: chars.len(),
            provenance: JsonValue::Null,
            metadata: JsonValue::Null,
        }
    }

    /// Sets the source-local rank the packer orders by.
    pub fn with_rank(self, rank: usize) -> (r: ContextItem)
        ensures
            r == (ContextItem { rank, ..self }),
    {
        ContextItem { rank, ..self }
    }

    /// Sets the relevance score, by its IEEE-754 bits.
    pub fn with_score_bits(self, score_bits: u64) -> (r: ContextItem)
        ensures
            r == (ContextItem { score_bits, ..self }),
    {
        ContextItem { score_bits, ..self }
    }

    /// Overrides the character estimate.
    pub fn with_estimated_chars(self, estimated_chars: usize) -> (r: ContextItem)
        ensures
            r == (ContextItem { estimated_chars, ..self }),
    {
        ContextItem { estimated_chars, ..self }
    }

    /// Attaches source-specific provenance.
    pub fn with_provenance(self, provenance: JsonValue) -> (r: ContextItem)
        ensures
            r == (ContextItem { provenance, ..self }),
    {
        ContextItem { provenance, ..self }
    }

    /// Attaches caller-defined metadata.
    pub fn with_metadata(self, metadata: JsonValue) -> (r: ContextItem)
        ensures
            r == (ContextItem { metadata, ..self }),
    {
        ContextItem { metadata, ..self }
    }
}

/// Reason a context item was not selected for a [`ContextPack`].
#[derive(Debug, Clone, PartialEq, Eq, Structural)]
pub enum ContextOmissionReason {
    /// The pack already reached `max_items`.
    MaxItems,
    /// Adding the item would exceed the available character budget.
    OverBudget,
}

/// A context item plus the reason it was omitted.
#[derive(Debug, PartialEq)]
pub struct OmittedContextItem {
    /// Item considered by the packer.
    pub item: ContextItem,
    /// Why the item was not selected.
    pub reason: ContextOmissionReason,
}

/// Limits for packing context items into a bounded model window.
#[derive(Debug, Clone, PartialEq, Eq)]
pub struct ContextPackConfig {
    /// Maximum characters available to selected item text, including separators.
    pub max_chars: usize,
    /// Maximum number of items to include.
    pub max_items: usize,
    /// Characters reserved for instructions, user input, or other context.
    pub reserve_chars: usize,
    /// Separator inserted between selected item text when rendering.
    pub separator: String,
}

impl Default for ContextPackConfig {
    fn default() -> (r: ContextPackConfig)
        ensures
            r.max_chars == 4000,
            r.max_items == 16,
            r.reserve_chars == 0,
            r.separator@ == seq!['\n'],
    {
        proof {
            reveal_strlit("\n");
        }
        ContextPackConfig { max_chars: 4000, max_items: 16, reserve_chars: 0, separator: String::from_str("\n") }
    }
}

/// The characters left for packed items: `max_chars - reserve_chars`, or
/// zero when the reserve exceeds the budget.
pub open spec fn context_budget_spec(c: ContextPackConfig) -> usize {
    if c.max_chars >= c.reserve_chars {
        (c.max_chars - c.reserve_chars) as usize
    } else {
        0
    }
}

impl ContextPackConfig {
    /// A config with a character budget and otherwise default limits.
    pub fn new(max_chars: usize) -> (r: ContextPackConfig)
        ensures
            r.max_chars == max_chars,
            r.max_items == 16,
            r.reserve_chars == 0,
            r.separator@ == seq!['\n'],
    {
        ContextPackConfig { max_chars, ..ContextPackConfig::default() }
    }

    /// Sets the maximum number of selected items.
    pub fn with_max_items(self, max_items: usize) -> (r: ContextPackConfig)
        ensures
            r == (ContextPackConfig { max_items, ..self }),
    {
        ContextPackConfig { max_items, ..self }
    }

    /// Reserves part of the character budget for context that is not packed.
    pub fn with_reserve_chars(self, reserve_chars: usize) -> (r: ContextPackConfig)
        ensures
            r == (ContextPackConfig { reserve_chars, ..self }),
    {
        ContextPackConfig { reserve_chars, ..self }
    }

    /// Uses a custom separator when rendering selected context.
    pub fn with_separator(self, separator: &str) -> (r: ContextPackConfig)
        ensures
            r.max_chars == self.max_chars,
            r.max_items == self.max_items,
            r.reserve_chars == self.reserve_chars,
            r.separator@ == separator@,
    {
        ContextPackConfig { separator: crate::text::owned(separator), ..self }
    }

    /// The characters left for packed items.
    pub fn context_budget(&self) -> (r: usize)
        ensures
            r == context_budget_spec(*self),
    {
        self.max_chars.saturating_sub(self.reserve_chars)
    }
}


/// Where an item of rank `r` goes in a rank-sorted sequence: after every
/// item of rank at most `r`.
pub open spec fn rank_insert_pos(s: Seq<ContextItem>, r: usize) -> nat
    decreases s.len(),
{
    if s.len() == 0 {
        0
    } else if s.last().rank <= r {
        s.len()
    } else {
        rank_insert_pos(s.drop_last(), r)
    }
}

/// `s` sorted by rank, items of equal rank in their original order (a
/// stable sort, as `sort_by_key` performs).
pub open spec fn sort_by_rank_spec(s: Seq<ContextItem>) -> Seq<ContextItem>
    decreases s.len(),
{
    if s.len() == 0 {
        Seq::empty()
    } else {
        let sorted = sort_by_rank_spec(s.drop_last());
        sorted.insert(rank_insert_pos(sorted, s.last().rank) as int, s.last())
    }
}

proof fn lemma_insert_pos_bound(s: Seq<ContextItem>, r: usize)
    ensures
        rank_insert_pos(s, r) <= s.len(),
    decreases s.len(),
{
    if s.len() > 0 && s.last().rank > r {
        lemma_insert_pos_bound(s.drop_last(), r);
    }
}

proof fn lemma_sort_len(s: Seq<ContextItem>)
    ensures
        sort_by_rank_spec(s).len() == s.len(),
    decreases s.len(),
{
    if s.len() > 0 {
        lemma_sort_len(s.drop_last());
        lemma_insert_pos_bound(sort_by_rank_spec(s.drop_last()), s.last().rank);
    }
}

/// Sorts items by rank, stably.
fn sort_by_rank(items: Vec<ContextItem>) -> (r: Vec<ContextItem>)
    ensures
        r@ == sort_by_rank_spec(items@),
{
    let ghost all = items@;
    let mut out: Vec<ContextItem> = Vec::new();
    assert(all.take(0) =~= Seq::<ContextItem>::empty());
    for item in it: items.into_iter()
        invariant
            it.seq() == all,
            out@ == sort_by_rank_spec(all.take(it.index() as int)),
    {
        let r = item.rank;
        let mut p = out.len();
        assert(out@.take(p as int) =~= out@);
        while p > 0 && out[p - 1].rank > r
            invariant
                p <= out@.len(),
                rank_insert_pos(out@, r) == rank_insert_pos(out@.take(p as int), r),
            decreases p,
        {
            assert(out@.take(p as int).drop_last() =~= out@.take(p - 1));
            p = p - 1;
        }
        proof {
            if p > 0 {
                assert(out@.take(p as int).last() == out@[p - 1]);
            } else {
                assert(out@.take(0) =~= Seq::<ContextItem>::empty());
            }
            let k = it.index() as int;
            assert(all.take(k + 1).drop_last() =~= all.take(k));
            assert(all.take(k + 1).last() == all[k]);
        }
        out.insert(p, item);
    }
    assert(all.take(all.len() as int) =~= all);
    out
}

/// The characters an item costs: its estimate, or its text's length when
/// that is larger.
pub open spec fn item_chars(item: ContextItem) -> int {
    if item.estimated_chars >= item.text@.len() {
        item.estimated_chars as int
    } else {
        item.text@.len() as int
    }
}

/// The packing walk over rank-sorted items `i..`: an item is omitted for
/// `MaxItems` once `max_items` are selected, for `OverBudget` when its
/// characters (plus a separator after the first selected item) would take
/// the running total past `budget`, and is selected otherwise.
pub open spec fn pack_walk(
    items: Seq<ContextItem>,
    max_items: usize,
    budget: usize,
    sep_chars: nat,
    i: nat,
    selected: Seq<ContextItem>,
    omitted: Seq<OmittedContextItem>,
    total: usize,
) -> (Seq<ContextItem>, Seq<OmittedContextItem>, usize)
    decreases items.len() - i,
{
    if i >= items.len() {
        (selected, omitted, total)
    } else {
        let item = items[i as int];
        if selected.len() >= max_items {
            pack_walk(items, max_items, budget, sep_chars, i + 1, selected,
                omitted.push(OmittedContextItem { item, reason: ContextOmissionReason::MaxItems }), total)
        } else {
            let sep: int = if selected.len() == 0 { 0 } else { sep_chars as int };
            let next = total + sep + item_chars(item);
            if next > budget {
                pack_walk(items, max_items, budget, sep_chars, i + 1, selected,
                    omitted.push(OmittedContextItem { item, reason: ContextOmissionReason::OverBudget }), total)
            } else {
                pack_walk(items, max_items, budget, sep_chars, i + 1, selected.push(item), omitted, next as usize)
            }
        }
    }
}

/// What packing `items` under `config` selects, omits and counts.
pub open spec fn pack_spec(items: Seq<ContextItem>, config: ContextPackConfig) -> (
    Seq<ContextItem>,
    Seq<OmittedContextItem>,
    usize,
) {
    pack_walk(
        sort_by_rank_spec(items),
        config.max_items,
        context_budget_spec(config),
        config.separator@.len(),
        0,
        Seq::empty(),
        Seq::empty(),
        0,
    )
}

/// Selected and omitted context for one bounded model window.
#[derive(Debug, PartialEq)]
pub struct ContextPack {
    /// Configuration used to build this pack.
    pub config: ContextPackConfig,
    /// Items selected for prompt context, in render order.
    pub selected: Vec<ContextItem>,
    /// Items considered but omitted, with explicit reasons.
    pub omitted: Vec<OmittedContextItem>,
    /// Estimated characters consumed by selected text and separators.
    pub total_estimated_chars: usize,
}

/// Texts joined with a separator between each two.
pub open spec fn join_texts(texts: Seq<Seq<char>>, sep: Seq<char>) -> Seq<char>
    decreases texts.len(),
{
    if texts.len() == 0 {
        Seq::empty()
    } else if texts.len() == 1 {
        texts[0]
    } else {
        join_texts(texts.drop_last(), sep) + sep + texts.last()
    }
}

/// The texts of items.
pub open spec fn texts_of(items: Seq<ContextItem>) -> Seq<Seq<char>> {
    Seq::new(items.len(), |i: int| items[i].text@)
}

impl ContextPack {
    /// Packs context items into the configured character window: items are
    /// sorted by rank (stably) and then taken greedily in that order.
    pub fn pack(items: Vec<ContextItem>, config: ContextPackConfig) -> (r: ContextPack)
        ensures
            r.config == config,
            (r.selected@, r.omitted@, r.total_estimated_chars) == pack_spec(items@, config),
    {
        let sorted = sort_by_rank(items);
        let budget = config.context_budget();
        let sep_chars = crate::text::chars_of(config.separator.as_str()).len();
        let ghost all = sorted@;
        let mut selected: Vec<ContextItem> = Vec::new();
        let mut omitted: Vec<OmittedContextItem> = Vec::new();
        let mut total: usize = 0;
        for item in it: sorted.into_iter()
            invariant
                it.seq() == all,
                budget == context_budget_spec(config),
                sep_chars == config.separator@.len(),
                pack_walk(all, config.max_items, budget, sep_chars as nat, it.index() as nat, selected@, omitted@, total)
                    == pack_walk(all, config.max_items, budget, sep_chars as nat, 0, Seq::empty(), Seq::empty(), 0),
        {
            if selected.len() >= config.max_items {
                omitted.push(OmittedContextItem { item, reason: ContextOmissionReason::MaxItems });
            } else {
                let text_chars = crate::text::chars_of(item.text.as_str()).len();
                let chars = if item.estimated_chars >= text_chars { item.estimated_chars } else { text_chars };
                let sep_cost = if selected.len() == 0 { 0 } else { sep_chars };
                let next = match total.checked_add(sep_cost) {
                    Some(a) => a.checked_add(chars),
                    None => None,
                };
                match next {
                    Some(n) => {
                        if n > budget {
                            omitted.push(OmittedContextItem { item, reason: ContextOmissionReason::OverBudget });
                        } else {
                            total = n;
                            selected.push(item);
                        }
                    },
                    None => {
                        omitted.push(OmittedContextItem { item, reason: ContextOmissionReason::OverBudget });
                    },
                }
            }
        }
        ContextPack { config, selected, omitted, total_estimated_chars: total }
    }

    /// The selected items' text, joined with the configured separator.
    pub fn render_text(&self) -> (r: String)
        ensures
            r@ == join_texts(texts_of(self.selected@), self.config.separator@),
    {
        let mut out: Vec<char> = Vec::new();
        let sep = crate::text::chars_of(self.config.separator.as_str());
        let mut i: usize = 0;
        while i < self.selected.len()
            invariant
                i <= self.selected@.len(),
                sep@ == self.config.separator@,
                out@ == join_texts(texts_of(self.selected@).take(i as int), sep@),
            decreases self.selected@.len() - i,
        {
            let ghost before = out@;
            if i > 0 {
                let mut j: usize = 0;
                while j < sep.len()
                    invariant
                        j <= sep@.len(),
                        out@ == before + sep@.take(j as int),
                    decreases sep@.len() - j,
                {
                    out.push(sep[j]);
                    j = j + 1;
                    assert(out@ =~= before + sep@.take(j as int));
                }
                assert(sep@.take(sep@.len() as int) =~= sep@);
            }
            let ghost mid = out@;
            let text = crate::text::chars_of(self.selected[i].text.as_str());
            let mut k: usize = 0;
            while k < text.len()
                invariant
                    k <= text@.len(),
                    out@ == mid + text@.take(k as int),
                decreases text@.len() - k,
            {
                out.push(text[k]);
                k = k + 1;
                assert(out@ =~= mid + text@.take(k as int));
            }
            proof {
                assert(text@.take(text@.len() as int) =~= text@);
                let ts = texts_of(self.selected@);
                assert(ts.take(i + 1).drop_last() =~= ts.take(i as int));
                assert(ts.take(i + 1).last() == ts[i as int]);
                if i == 0 {
                    assert(before =~= Seq::<char>::empty());
                    assert(out@ =~= text@);
                }
            }
            i = i + 1;
        }
        assert(texts_of(self.selected@).take(self.selected@.len() as int) =~= texts_of(self.selected@));
        crate::text::string_from_chars(out.as_slice(), 0, out.len())
    }
}

/// Whether items are in non-decreasing rank order.
pub open spec fn rank_sorted(s: Seq<ContextItem>) -> bool {
    forall|i: int, j: int| 0 <= i < j < s.len() ==> #[trigger] s[i].rank <= #[trigger] s[j].rank
}

proof fn lemma_insert_keeps_sorted(s: Seq<ContextItem>, x: ContextItem)
    requires
        rank_sorted(s),
    ensures
        rank_sorted(s.insert(rank_insert_pos(s, x.rank) as int, x)),
        forall|k: int| 0 <= k < rank_insert_pos(s, x.rank) ==> (#[trigger] s[k]).rank <= x.rank,
        forall|k: int| rank_insert_pos(s, x.rank) <= k < s.len() ==> (#[trigger] s[k]).rank > x.rank,
    decreases s.len(),
{
    lemma_insert_pos_bound(s, x.rank);
    if s.len() > 0 && s.last().rank > x.rank {
        lemma_insert_keeps_sorted(s.drop_last(), x);
        assert forall|k: int| rank_insert_pos(s, x.rank) <= k < s.len() implies (#[trigger] s[k]).rank > x.rank by {
            if k < s.len() - 1 {
                assert(s.drop_last()[k] == s[k]);
            }
        }
        assert forall|k: int| 0 <= k < rank_insert_pos(s, x.rank) implies (#[trigger] s[k]).rank <= x.rank by {
            assert(s.drop_last()[k] == s[k]);
        }
    } else if s.len() > 0 {
        assert forall|k: int| 0 <= k < s.len() implies (#[trigger] s[k]).rank <= x.rank by {
            if k < s.len() - 1 {
                assert(s[k].rank <= s[s.len() - 1].rank);
            }
        }
    }
    let p = rank_insert_pos(s, x.rank) as int;
    let t = s.insert(p, x);
    assert forall|i: int, j: int| 0 <= i < j < t.len() implies #[trigger] t[i].rank <= #[trigger] t[j].rank by {
        if i < p && j < p {
            assert(t[i] == s[i] && t[j] == s[j]);
        } else if i < p && j == p {
            assert(t[i] == s[i]);
        } else if i < p {
            assert(t[i] == s[i] && t[j] == s[j - 1]);
        } else if i == p {
            assert(t[j] == s[j - 1]);
        } else {
            assert(t[i] == s[i - 1] && t[j] == s[j - 1]);
        }
    }
}

/// Sorting by rank gives the same items, in non-decreasing rank order.
pub proof fn law_sort_by_rank(s: Seq<ContextItem>)
    ensures
        rank_sorted(sort_by_rank_spec(s)),
        sort_by_rank_spec(s).to_multiset() == s.to_multiset(),
    decreases s.len(),
{
    broadcast use vstd::seq_lib::group_to_multiset_ensures;
    if s.len() > 0 {
        law_sort_by_rank(s.drop_last());
        let sorted = sort_by_rank_spec(s.drop_last());
        lemma_insert_keeps_sorted(sorted, s.last());
        lemma_insert_pos_bound(sorted, s.last().rank);
        let p = rank_insert_pos(sorted, s.last().rank) as int;
        vstd::seq_lib::to_multiset_insert(sorted, p, s.last());
        vstd::seq_lib::to_multiset_build(s.drop_last(), s.last());
        assert(s.drop_last().push(s.last()) =~= s);
    }
}

/// Sorting by rank keeps items of equal rank in their original order.
pub proof fn law_sort_by_rank_stable(s: Seq<ContextItem>, r: usize)
    ensures
        sort_by_rank_spec(s).filter(|x: ContextItem| x.rank == r) == s.filter(|x: ContextItem| x.rank == r),
    decreases s.len(),
{
    let f = |x: ContextItem| x.rank == r;
    if s.len() == 0 {
        assert(s.filter(f) =~= Seq::<ContextItem>::empty());
        assert(sort_by_rank_spec(s).filter(f) =~= Seq::<ContextItem>::empty());
    } else {
        law_sort_by_rank_stable(s.drop_last(), r);
        law_sort_by_rank(s.drop_last());
        let sorted = sort_by_rank_spec(s.drop_last());
        let x = s.last();
        lemma_insert_keeps_sorted(sorted, x);
        lemma_insert_pos_bound(sorted, x.rank);
        let p = rank_insert_pos(sorted, x.rank) as int;
        let front = sorted.take(p);
        let back = sorted.skip(p);
        assert(sorted.insert(p, x) =~= front + seq![x] + back);
        assert(sorted =~= front + back);
        Seq::filter_distributes_over_add(front + seq![x], back, f);
        Seq::filter_distributes_over_add(front, seq![x], f);
        Seq::filter_distributes_over_add(front, back, f);
        assert(s =~= s.drop_last().push(x));
        Seq::filter_distributes_over_add(s.drop_last(), seq![x], f);
        assert(s.drop_last() + seq![x] =~= s);
        assert(seq![x].drop_last() =~= Seq::<ContextItem>::empty());
        assert(Seq::<ContextItem>::empty().filter(f) =~= Seq::<ContextItem>::empty());
        if x.rank == r {
            assert forall|k: int| 0 <= k < back.len() implies !f(#[trigger] back[k]) by {
                assert(back[k] == sorted[p + k]);
            }
            lemma_filter_none(back, f);
        } else {
            assert(!f(seq![x][0]));
            lemma_filter_none(seq![x], f);
        }
    }
}

proof fn lemma_filter_none(s: Seq<ContextItem>, f: spec_fn(ContextItem) -> bool)
    requires
        forall|k: int| 0 <= k < s.len() ==> !f(#[trigger] s[k]),
    ensures
        s.filter(f) == Seq::<ContextItem>::empty(),
    decreases s.len(),
{
    reveal(Seq::filter);
    if s.len() > 0 {
        assert forall|k: int| 0 <= k < s.drop_last().len() implies !f(#[trigger] s.drop_last()[k]) by {
            assert(s.drop_last()[k] == s[k]);
        }
        lemma_filter_none(s.drop_last(), f);
    }
}

proof fn lemma_pack_walk(
    items: Seq<ContextItem>,
    max_items: usize,
    budget: usize,
    sep_chars: nat,
    i: nat,
    selected: Seq<ContextItem>,
    omitted: Seq<OmittedContextItem>,
    total: usize,
)
    requires
        i <= items.len(),
        rank_sorted(items),
        selected.len() <= max_items || (selected.len() == 0),
        total <= budget,
        selected.len() + omitted.len() == i,
        rank_sorted(selected),
        forall|k: int, j: int| 0 <= k < selected.len() && i <= j < items.len() ==> #[trigger] selected[k].rank <= #[trigger] items[j].rank,
    ensures
        ({
            let (s, o, t) = pack_walk(items, max_items, budget, sep_chars, i, selected, omitted, total);
            &&& s.len() <= max_items || s.len() == 0
            &&& t <= budget
            &&& s.len() + o.len() == items.len()
            &&& rank_sorted(s)
        }),
    decreases items.len() - i,
{
    if i < items.len() {
        let item = items[i as int];
        if selected.len() >= max_items {
            lemma_pack_walk(items, max_items, budget, sep_chars, i + 1, selected,
                omitted.push(OmittedContextItem { item, reason: ContextOmissionReason::MaxItems }), total);
        } else {
            let sep: int = if selected.len() == 0 { 0 } else { sep_chars as int };
            let next = total + sep + item_chars(item);
            if next > budget {
                lemma_pack_walk(items, max_items, budget, sep_chars, i + 1, selected,
                    omitted.push(OmittedContextItem { item, reason: ContextOmissionReason::OverBudget }), total);
            } else {
                let s2 = selected.push(item);
                assert forall|k: int, j: int| 0 <= k < s2.len() && i + 1 <= j < items.len() implies #[trigger] s2[k].rank <= #[trigger] items[j].rank by {
                    if k < selected.len() {
                        assert(s2[k] == selected[k]);
                    } else {
                        assert(items[i as int].rank <= items[j].rank);
                    }
                }
                assert forall|a: int, b: int| 0 <= a < b < s2.len() implies #[trigger] s2[a].rank <= #[trigger] s2[b].rank by {
                    if b < selected.len() {
                        assert(s2[a] == selected[a] && s2[b] == selected[b]);
                    } else {
                        assert(s2[a] == selected[a]);
                    }
                }
                lemma_pack_walk(items, max_items, budget, sep_chars, i + 1, s2, omitted, next as usize);
            }
        }
    }
}

/// A pack selects at most `max_items` items, in rank order, within the
/// character budget (`max_chars - reserve_chars`, separators included), and
/// every input item is either selected or omitted.
pub proof fn law_pack_bounds(items: Seq<ContextItem>, config: ContextPackConfig)
    ensures
        ({
            let (selected, omitted, total) = pack_spec(items, config);
            &&& selected.len() <= config.max_items
            &&& total <= context_budget_spec(config)
            &&& selected.len() + omitted.len() == items.len()
            &&& rank_sorted(selected)
        }),
{
    law_sort_by_rank(items);
    lemma_sort_len(items);
    lemma_pack_walk(
        sort_by_rank_spec(items),
        config.max_items,
        context_budget_spec(config),
        config.separator@.len(),
        0,
        Seq::empty(),
        Seq::empty(),
        0,
    );
}

/// Why omission `o` stands against a selection of `n` items totalling
/// `total` characters: for `MaxItems`, `max_items` items are selected; for
/// `OverBudget`, the item (after a separator, once something is selected)
/// does not fit on top of them.
pub open spec fn omission_stands(o: OmittedContextItem, n: nat, total: int, max_items: usize, budget: usize, sep_chars: nat) -> bool {
    match o.reason {
        ContextOmissionReason::MaxItems => n >= max_items,
        ContextOmissionReason::OverBudget => total + (if n == 0 { 0 } else { sep_chars as int }) + item_chars(o.item) > budget,
    }
}

proof fn lemma_pack_omissions(
    items: Seq<ContextItem>,
    max_items: usize,
    budget: usize,
    sep_chars: nat,
    i: nat,
    selected: Seq<ContextItem>,
    omitted: Seq<OmittedContextItem>,
    total: usize,
)
    requires
        i <= items.len(),
        forall|k: int| 0 <= k < omitted.len() ==> omission_stands(#[trigger] omitted[k], selected.len(), total as int, max_items, budget, sep_chars),
    ensures
        ({
            let (s, o, t) = pack_walk(items, max_items, budget, sep_chars, i, selected, omitted, total);
            &&& s.len() >= selected.len()
            &&& t >= total
            &&& forall|k: int| 0 <= k < o.len() ==> omission_stands(#[trigger] o[k], s.len(), t as int, max_items, budget, sep_chars)
        }),
    decreases items.len() - i,
{
    if i < items.len() {
        let item = items[i as int];
        if selected.len() >= max_items {
            let o2 = omitted.push(OmittedContextItem { item, reason: ContextOmissionReason::MaxItems });
            assert forall|k: int| 0 <= k < o2.len() implies omission_stands(#[trigger] o2[k], selected.len(), total as int, max_items, budget, sep_chars) by {
                if k < omitted.len() {
                    assert(o2[k] == omitted[k]);
                }
            }
            lemma_pack_omissions(items, max_items, budget, sep_chars, i + 1, selected, o2, total);
        } else {
            let sep: int = if selected.len() == 0 { 0 } else { sep_chars as int };
            let next = total + sep + item_chars(item);
            if next > budget {
                let o2 = omitted.push(OmittedContextItem { item, reason: ContextOmissionReason::OverBudget });
                assert forall|k: int| 0 <= k < o2.len() implies omission_stands(#[trigger] o2[k], selected.len(), total as int, max_items, budget, sep_chars) by {
                    if k < omitted.len() {
                        assert(o2[k] == omitted[k]);
                    }
                }
                lemma_pack_omissions(items, max_items, budget, sep_chars, i + 1, selected, o2, total);
            } else {
                let s2 = selected.push(item);
                assert(item_chars(item) >= 0);
                assert forall|k: int| 0 <= k < omitted.len() implies omission_stands(#[trigger] omitted[k], s2.len(), next, max_items, budget, sep_chars) by {
                    assert(omission_stands(omitted[k], selected.len(), total as int, max_items, budget, sep_chars));
                    assert(item_chars(omitted[k].item) >= 0);
                }
                lemma_pack_omissions(items, max_items, budget, sep_chars, i + 1, s2, omitted, next as usize);
            }
        }
    }
}

/// Every omission stands against the final pack: an item is omitted for
/// `MaxItems` only when `max_items` items are selected, and for `OverBudget`
/// only when it would not fit even on top of everything selected, so no
/// item that fits is left out.
pub proof fn law_pack_omissions_stand(items: Seq<ContextItem>, config: ContextPackConfig)
    ensures
        ({
            let (selected, omitted, total) = pack_spec(items, config);
            forall|k: int|
                0 <= k < omitted.len() ==> omission_stands(
                    #[trigger] omitted[k],
                    selected.len(),
                    total as int,
                    config.max_items,
                    context_budget_spec(config),
                    config.separator@.len(),
                )
        }),
{
    lemma_pack_omissions(
        sort_by_rank_spec(items),
        config.max_items,
        context_budget_spec(config),
        config.separator@.len(),
        0,
        Seq::empty(),
        Seq::empty(),
        0,
    );
}

/// A named, lightweight signal lifted from a sketch, baseline check, or
/// upstream skill.
#[derive(Debug, Clone, PartialEq, Eq, Hash)]
pub struct Signal(pub String);

impl Signal {
    /// A signal named `s`.
    pub fn new(s: &str) -> (r: Signal)
        ensures
            r.0@ == s@,
    {
        Signal(crate::text::owned(s))
    }

    /// The signal's name.
    pub fn as_str(&self) -> (r: &str)
        ensures
            r@ == self.0@,
    {
        self.0.as_str()
    }
}
} // verus!
