//! Hybrid recall: candidate sources, fusion, budgeted selection and the
//! rendered prompt block.
//!
//! 1. the tag filter builds an allow-set; an unknown tag empties it and the
//!    result;
//! 2. every source admits a candidate only through one shared rule;
//! 3. sources produce ranked lists: lexical matches, graph expansion from
//!    entity anchors, and a temporal range scan ranked by recency;
//! 4. the lists are fused by rank, so sources need no score calibration
//!    against each other;
//! 5. facts are selected greedily by fused score under a count and a token
//!    budget, and rendered.
//!
//! Scores are floating-point numbers and are computed by the host: the core
//! hands out the integers a score depends on, and ranks by the bit patterns it
//! gets back.

pub mod admission;
pub mod calendar;
pub mod fuse;
pub mod gather;
pub mod graph;
pub mod lexical;
pub mod reach;
pub mod render;
pub mod selection;
pub mod sources;
pub mod time;
pub mod vector;
pub mod wordhits;

use crate::float::F32Bits;
use crate::id::{FactId, TermId};
use crate::index;
use crate::index::bm25;
use crate::index::bm25::Contribution;
use crate::index::postings;
use crate::index::rank;
use crate::index::rank::Scored;
use crate::interner;
use crate::journal;
use crate::memory::compaction;
use crate::memory::state;
use crate::memory::state::State;
use crate::memory::tagging;
use crate::memory::Memory;
use self::admission::{Allow, TagFilter};
use self::graph::{Expansion, RecalledEdge};
use vstd::prelude::*;
use vstd::string::*;

verus! {

/// Facts that a response holds when the query does not say.
pub const DEFAULT_K: usize = 8;

/// Facts that a response can hold.
pub const MAX_K: usize = 64;

/// Token budget when the query does not say.
pub const DEFAULT_BUDGET: usize = 512;

/// A recall request.
#[derive(Clone, Copy, Debug)]
pub struct RecallQuery<'a> {
    /// Host timestamp, unix milliseconds.
    pub now: u64,
    /// Free-text query for the lexical source.
    pub text: Option<&'a str>,
    /// Tag filter: a fact must carry all of these.
    pub tags: &'a [&'a str],
    /// Entity anchors for the graph source.
    pub entities: &'a [&'a str],
    /// Validity instant; defaults to `now`.
    pub as_of: Option<u64>,
    /// Recorded-at window for the temporal source, end exclusive.
    pub range: Option<(u64, u64)>,
    /// Result cap; 0 means the default.
    pub k: usize,
    /// Token budget of the rendered block.
    pub token_budget: Option<usize>,
    /// Show closed revisions too.
    pub include_closed: bool,
    /// Beam-width override for the vector source.
    pub ef: Option<usize>,
}

/// A recall request.
pub struct QueryView {
    pub text: Option<Seq<char>>,
    pub tags: Seq<Seq<char>>,
    pub entities: Seq<Seq<char>>,
    pub as_of: u64,
    pub historical: bool,
    pub range: Option<(u64, u64)>,
    pub k: int,
    pub budget: int,
    pub include_closed: bool,
}

impl<'a> View for RecallQuery<'a> {
    type V = QueryView;

    open spec fn view(&self) -> QueryView {
        QueryView {
            text: journal::opt_view(self.text),
            tags: journal::str_views(self.tags@),
            entities: journal::str_views(self.entities@),
            as_of: match self.as_of {
                Some(t) => t,
                None => self.now,
            },
            historical: self.as_of is Some,
            range: self.range,
            k: if self.k == 0 {
                DEFAULT_K as int
            } else if self.k > MAX_K {
                MAX_K as int
            } else {
                self.k as int
            },
            budget: match self.token_budget {
                Some(b) => b as int,
                None => DEFAULT_BUDGET as int,
            },
            include_closed: self.include_closed,
        }
    }
}

impl<'a> RecallQuery<'a> {
    /// A plain text query with every other knob at its default.
    pub fn text(now: u64, text: &'a str) -> (r: RecallQuery<'a>)
        ensures
            r@ == (QueryView {
                text: Some(text@),
                tags: Seq::empty(),
                entities: Seq::empty(),
                as_of: now,
                historical: false,
                range: None,
                k: 8,
                budget: 512,
                include_closed: false,
            }),
            r.now == now,
            r.ef is None,
    {
        let tags: &'a [&'a str] = &[];
        let entities: &'a [&'a str] = &[];
        assert(journal::str_views(tags@) =~= Seq::empty());
        assert(journal::str_views(entities@) =~= Seq::empty());
        RecallQuery {
            now,
            text: Some(text),
            tags,
            entities,
            as_of: None,
            range: None,
            k: 0,
            token_budget: None,
            include_closed: false,
            ef: None,
        }
    }

    /// The validity instant.
    pub fn instant(&self) -> (r: u64)
        ensures
            r == self@.as_of,
    {
        match self.as_of {
            Some(t) => t,
            None => self.now,
        }
    }

    /// The result cap.
    pub fn limit(&self) -> (r: usize)
        ensures
            r == self@.k,
    {
        if self.k == 0 {
            DEFAULT_K
        } else if self.k > MAX_K {
            MAX_K
        } else {
            self.k
        }
    }

    /// The token budget.
    pub fn budget(&self) -> (r: usize)
        ensures
            r == self@.budget,
    {
        match self.token_budget {
            Some(b) => b,
            None => DEFAULT_BUDGET,
        }
    }
}

/// What the sources of a query found, before scoring.
pub struct Candidates {
    /// The allow-set of the tag filter.
    pub allow: Option<Allow>,
    /// The numbers that score the admitted documents.
    pub lexical: Vec<Contribution>,
    /// Indexed documents.
    pub docs: u64,
    /// Tokens of all indexed documents together.
    pub total_len: u64,
    /// The ranked facts of the graph source.
    pub graph: Vec<Scored>,
    /// The edges that the graph source walked.
    pub edges: Vec<RecalledEdge>,
    /// The facts of the temporal source, newest first.
    pub time: Vec<FactId>,
}

/// The expansion of a query.
pub open spec fn expansion_of(s: State, q: QueryView) -> graph::Walk {
    graph::expanded(
        s,
        graph::Walk { edges: Seq::empty(), visited: graph::anchors_of(s, q.entities) },
        q.as_of,
        q.historical,
        s.cfg.graph_depth as nat,
    ).0
}

/// The lexical matches of a query.
pub open spec fn lexical_of(s: State, q: QueryView, allow: Option<Seq<FactId>>) -> Seq<
    Contribution,
> {
    match q.text {
        Some(text) => lexical::admitted_matches(
            s,
            allow,
            q.as_of,
            q.include_closed,
            bm25::query_matches(s.bm25, lexical::query_terms(s, text)),
        ),
        None => Seq::empty(),
    }
}

/// The graph candidates of a query.
pub open spec fn graph_of(
    s: State,
    q: QueryView,
    allow: Option<Seq<FactId>>,
    weights: Seq<F32Bits>,
) -> Seq<Scored> {
    let w = expansion_of(s, q);
    if w.visited.len() == 0 {
        Seq::empty()
    } else {
        graph::graph_ranked(s, allow, q.as_of, q.include_closed, w, weights)
    }
}

/// The temporal candidates of a query.
pub open spec fn time_of(s: State, q: QueryView, allow: Option<Seq<FactId>>) -> Seq<FactId> {
    match q.range {
        Some((from, to)) => time::time_facts(s, allow, q.as_of, q.include_closed, from, to),
        None => Seq::empty(),
    }
}

impl Candidates {
    /// The candidates are those of a query.
    pub open spec fn answers(&self, s: State, q: QueryView, weights: Seq<F32Bits>) -> bool {
        let allow = admission::allow_view(self.allow);
        &&& match self.allow {
            Some(a) => TagFilter::Only(a).is_filter(s, q.tags),
            None => q.tags.len() == 0,
        }
        &&& self.lexical@ == lexical_of(s, q, allow)
        &&& self.docs == s.bm25.total_docs
        &&& self.total_len == s.bm25.total_len
        &&& self.graph@ == graph_of(s, q, allow, weights)
        &&& self.edges@ == expansion_of(s, q).edges
        &&& self.time@ == time_of(s, q, allow)
    }
}

impl Memory {
    /// Runs the sources of a query. `weights[d]` is the weight of a graph
    /// distance of `d`. `None`: no fact can match the tag filter, and the
    /// response is empty.
    pub fn recall_sources(&self, q: &RecallQuery<'_>, weights: &Vec<F32Bits>) -> (r: Option<
        Candidates,
    >)
        requires
            self.wf(),
            weights@.len() >= 2,
            weights@.len() > self@.cfg.graph_depth,
        ensures
            match r {
                None => TagFilter::Dead.is_filter(self@, q@.tags),
                Some(c) => c.answers(self@, q@, weights@),
            },
    {
        let allow: Option<Allow> = match self.tag_filter(q.tags) {
            TagFilter::Dead => {
                return None;
            },
            TagFilter::Open => None,
            TagFilter::Only(a) => Some(a),
        };
        let as_of: u64 = q.instant();
        let lexical: Vec<Contribution> = match q.text {
            Some(text) => self.lexical_matches(text, &allow, as_of, q.include_closed),
            None => Vec::new(),
        };
        let w: Expansion = self.graph_expansion(q.entities, as_of, q.as_of.is_some());
        proof {
            graph::anchors_are_near(self@, q@.entities);
            graph::expansion_depths(
                self@,
                graph::Walk {
                    edges: Seq::empty(),
                    visited: graph::anchors_of(self@, q@.entities),
                },
                q@.as_of,
                q@.historical,
                self@.cfg.graph_depth as nat,
            );
            assert forall|i: int| 0 <= i < w.visited@.len() implies (#[trigger] w.visited@[i]).1
                < weights@.len() by {
                assert(w@.visited[i].1 == w.visited@[i].1);
            }
        }
        let graph: Vec<Scored> = self.graph_source(&allow, as_of, q.include_closed, &w, weights);
        let time: Vec<FactId> = match q.range {
            Some((from, to)) => self.time_source(&allow, as_of, q.include_closed, from, to),
            None => Vec::new(),
        };
        let docs: u64 = self.bm25.docs();
        let total_len: u64 = self.bm25.total_len();
        Some(Candidates { allow, lexical, docs, total_len, graph, edges: w.edges, time })
    }
}

/// A fact that the shared rule of a query lets through.
pub open spec fn passes(s: State, q: QueryView, allow: Option<Seq<FactId>>, id: FactId) -> bool {
    admission::admitted(s, allow, q.as_of, q.include_closed, id) is Some
}

/// Every source returns only facts that the shared rule lets through: the tag
/// filter, forgetting and the validity interval hold for all of them.
pub proof fn sources_return_admitted_facts(
    s: State,
    q: QueryView,
    allow: Option<Seq<FactId>>,
    weights: Seq<F32Bits>,
)
    ensures
        forall|i: int|
            0 <= i < lexical_of(s, q, allow).len() ==> passes(
                s,
                q,
                allow,
                (#[trigger] lexical_of(s, q, allow)[i]).fact,
            ),
        forall|i: int|
            0 <= i < graph_of(s, q, allow, weights).len() ==> passes(
                s,
                q,
                allow,
                FactId((#[trigger] graph_of(s, q, allow, weights)[i]).1),
            ),
        forall|i: int|
            0 <= i < time_of(s, q, allow).len() ==> passes(
                s,
                q,
                allow,
                #[trigger] time_of(s, q, allow)[i],
            ),
{
    if let Some(text) = q.text {
        let all = bm25::query_matches(s.bm25, lexical::query_terms(s, text));
        lexical::matches_are_admitted(s, allow, q.as_of, q.include_closed, all);
    }
    let w = expansion_of(s, q);
    if w.visited.len() > 0 {
        graph::ranked_are_admitted(s, allow, q.as_of, q.include_closed, w, weights);
    }
    if let Some((from, to)) = q.range {
        time::facts_are_admitted(s, allow, q.as_of, q.include_closed, from, to);
    }
}

/// Every fact of a response passes the shared rule when every fact of its
/// source lists does: it is on record and not forgotten, recorded and valid at
/// the instant of the query, and in the allow-set.
pub proof fn recalled_facts_pass(
    s: State,
    q: QueryView,
    allow: Option<Seq<FactId>>,
    lists: Seq<fuse::SourceList>,
    scores: Seq<F32Bits>,
    edges: Seq<RecalledEdge>,
    k: int,
    budget: int,
)
    requires
        k >= 0,
        budget >= 0,
        forall|l: int, i: int|
            0 <= l < lists.len() && 0 <= i < lists[l].1.len() ==> passes(
                s,
                q,
                allow,
                #[trigger] lists[l].1[i],
            ),
    ensures
        forall|i: int|
            #![trigger render::response(s, fuse::fused(lists), scores, edges, k, budget).facts[i]]
            0 <= i < render::response(
                s,
                fuse::fused(lists),
                scores,
                edges,
                k,
                budget,
            ).facts.len() ==> passes(
                s,
                q,
                allow,
                render::response(s, fuse::fused(lists), scores, edges, k, budget).facts[i].id,
            ),
{
    let views = fuse::fused(lists);
    let items = render::scored(views, scores);
    let order = rank::ranked(items);
    let r = render::response(s, views, scores, edges, k, budget);
    render::lemma_selected_bound(s, order, k, budget);
    assert forall|i: int| 0 <= i < r.facts.len() implies passes(
        s,
        q,
        allow,
        (#[trigger] r.facts[i]).id,
    ) by {
        rank::ranked_items_are_given(items, i);
        let j = items.index_of(order[i]);
        assert(items[j] == order[i]);
        let id = views[j].id;
        assert(id == r.facts[i].id);
        assert(fuse::place_of(views, id) is Some);
        fuse::fused_facts_come_from_sources(lists, id);
        let l = choose|l: int| 0 <= l < lists.len() && (#[trigger] lists[l]).1.contains(id);
        let n = lists[l].1.index_of(id);
        assert(passes(s, q, allow, lists[l].1[n]));
    }
}

/// Every fact that passes carries every tag of the query.
pub proof fn recalled_facts_carry_every_tag(
    s: State,
    q: QueryView,
    allow: Option<Seq<FactId>>,
    terms: Seq<u32>,
    id: FactId,
)
    requires
        tagging::tagged(s),
        admission::tag_terms(s, q.tags) == Some(terms),
        allow matches Some(ids) ==> admission::allow_of(s, terms, ids),
        q.tags.len() > 0 ==> allow is Some,
        passes(s, q, allow, id),
    ensures
        forall|i: int|
            0 <= i < q.tags.len() ==> (match interner::lookup_of(s.terms, #[trigger] q.tags[i]) {
                Some(t) => state::fact_tags(s, id).contains(t),
                None => false,
            }),
{
    lemma_tag_terms(s, q.tags, terms);
    assert forall|i: int| 0 <= i < q.tags.len() implies (match interner::lookup_of(
        s.terms,
        #[trigger] q.tags[i],
    ) {
        Some(t) => state::fact_tags(s, id).contains(t),
        None => false,
    }) by {
        let ids = allow->0;
        assert(ids.contains(FactId(id.0)));
        assert(index::on_all(s.tags_idx, terms, id.0));
        let key = terms[i];
        let xs = postings::entries_of(s.tags_idx, key);
        assert(index::has_id(xs, id.0));
        let j = choose|j: int| 0 <= j < xs.len() && (#[trigger] xs[j]).0 == id.0;
        assert(tagging::tag_held(s, key, xs[j].0)) by {
            reveal(tagging::tagged);
            assert(postings::entries_of(s.tags_idx, key)[j].0 == id.0);
        }
        compaction::lemma_tags_read(s, id, TermId(key));
    }
}

proof fn lemma_tag_terms(s: State, tags: Seq<Seq<char>>, terms: Seq<u32>)
    requires
        admission::tag_terms(s, tags) == Some(terms),
    ensures
        terms.len() == tags.len(),
        forall|i: int|
            0 <= i < tags.len() ==> interner::lookup_of(s.terms, #[trigger] tags[i]) == Some(
                TermId(terms[i]),
            ),
    decreases tags.len(),
{
    if tags.len() > 0 {
        let front = tags.drop_last();
        let xs = admission::tag_terms(s, front)->0;
        lemma_tag_terms(s, front, xs);
        assert forall|i: int| 0 <= i < tags.len() implies interner::lookup_of(
            s.terms,
            #[trigger] tags[i],
        ) == Some(TermId(terms[i])) by {
            if i < front.len() {
                assert(front[i] == tags[i]);
            }
        }
    }
}

} // verus!
