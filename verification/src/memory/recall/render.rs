//! Budgeted selection and the rendered prompt block.

use crate::float::F32Bits;
use crate::id::{EntityId, FactId, TermId, NONE_U32};
use crate::index::rank;
use crate::index::rank::{rank_top, Scored};
use crate::memory::recall::calendar;
use crate::memory::recall::calendar::{push_number, render_ym};
use crate::memory::recall::fuse;
use crate::memory::recall::fuse::Fused;
use crate::memory::recall::graph::RecalledEdge;
use crate::memory::recall::selection;
use crate::memory::state;
use crate::memory::state::State;
use crate::memory::Memory;
use crate::model::{EntityRecord, FactRecord, VALID_TO_OPEN};
use crate::table;
use crate::text::{push_char, str_from_utf8};
use vstd::prelude::*;
use vstd::string::*;
use vstd::utf8::*;

verus! {

/// One recalled fact.
#[derive(Clone, Copy, Debug, PartialEq, Eq, Structural)]
pub struct RecalledFact {
    /// The fact.
    pub id: FactId,
    /// Fused score.
    pub score: F32Bits,
    /// Which sources surfaced it.
    pub sources: u8,
    /// Subject entity or the sentinel.
    pub entity: EntityId,
    /// Knowledge axis.
    pub recorded_at: u64,
    /// Truth axis, start.
    pub valid_from: u64,
    /// Truth axis, end.
    pub valid_to: u64,
}

/// A recall response.
pub struct RecallResult {
    /// Selected facts, descending fused score.
    pub facts: Vec<RecalledFact>,
    /// Edges walked by the graph source.
    pub edges: Vec<RecalledEdge>,
    /// The compact prompt block (empty when nothing was found).
    pub rendered: String,
    /// Selection stopped at the count or the token budget with candidates left
    /// over.
    pub truncated: bool,
}

/// A recall response.
pub struct RecallView {
    pub facts: Seq<RecalledFact>,
    pub edges: Seq<RecalledEdge>,
    pub rendered: Seq<char>,
    pub truncated: bool,
}

impl View for RecallResult {
    type V = RecallView;

    open spec fn view(&self) -> RecallView {
        RecallView {
            facts: self.facts@,
            edges: self.edges@,
            rendered: self.rendered@,
            truncated: self.truncated,
        }
    }
}

/// The tokens that a fact costs.
pub open spec fn cost_of(s: State, id: u32) -> int {
    match state::fact_of(s, FactId(id)) {
        Some(f) => s.texts[f.text.0 as int].len() as int / 4 + 8,
        None => 8,
    }
}

/// The tokens that some facts cost together.
pub open spec fn spent(s: State, order: Seq<Scored>) -> int
    decreases order.len(),
{
    if order.len() == 0 {
        0
    } else {
        spent(s, order.drop_last()) + cost_of(s, order.last().1)
    }
}

/// How many of the ranked facts are selected: the longest run from the front
/// within the count and the budget.
pub open spec fn selected(s: State, order: Seq<Scored>, k: int, budget: int) -> int
    decreases order.len(),
{
    if order.len() == 0 {
        0
    } else {
        let front = order.drop_last();
        let n = selected(s, front, k, budget);
        if n < front.len() || n == k || spent(s, order) > budget {
            n
        } else {
            n + 1
        }
    }
}

/// A selected fact.
pub open spec fn recalled(s: State, fused: Seq<fuse::FusedView>, x: Scored) -> RecalledFact {
    let f = state::fact_of(s, FactId(x.1))->0;
    RecalledFact {
        id: FactId(x.1),
        score: x.0,
        sources: match fuse::place_of(fused, FactId(x.1)) {
            Some(i) => fused[i].sources,
            None => 0,
        },
        entity: f.entity,
        recorded_at: f.recorded_at,
        valid_from: f.valid_from,
        valid_to: f.valid_to,
    }
}

/// The canonical name of an entity, when it is on record and readable.
pub open spec fn name_of(s: State, id: EntityId) -> Option<Seq<char>> {
    match table::row_of(s.entities, id.0 as int) {
        Some(e) => if valid_utf8(s.texts[e.name.0 as int]) {
            Some(decode_utf8(s.texts[e.name.0 as int]))
        } else {
            None
        },
        None => None,
    }
}

/// The text of a fact; an unreadable one renders as nothing.
pub open spec fn body_of(s: State, id: FactId) -> Seq<char> {
    match state::fact_of(s, id) {
        Some(f) => if valid_utf8(s.texts[f.text.0 as int]) {
            decode_utf8(s.texts[f.text.0 as int])
        } else {
            Seq::empty()
        },
        None => Seq::empty(),
    }
}

/// The subject prefix of a fact.
pub open spec fn subject(s: State, entity: EntityId) -> Seq<char> {
    if entity.0 == NONE_U32 {
        Seq::empty()
    } else {
        match name_of(s, entity) {
            Some(name) => name + ": "@,
            None => Seq::empty(),
        }
    }
}

/// The validity interval of a fact.
pub open spec fn interval(valid_from: u64, valid_to: u64) -> Seq<char> {
    let start = " ("@ + calendar::year_month(valid_from);
    if valid_to == VALID_TO_OPEN {
        start + "; active)"@
    } else {
        start + " → "@ + calendar::year_month(valid_to) + "; closed)"@
    }
}

/// The first `n` tags of a fact.
pub open spec fn hashtags(s: State, tags: Seq<TermId>, n: nat) -> Seq<char>
    decreases n,
{
    if n == 0 {
        Seq::empty()
    } else {
        hashtags(s, tags, (n - 1) as nat) + " #"@ + s.terms[tags[n - 1].0 as int]
    }
}

/// The line of a fact.
pub open spec fn fact_line(s: State, f: RecalledFact) -> Seq<char> {
    let tags = state::fact_tags(s, f.id);
    ("- [f"@ + calendar::decimal(f.id.0 as nat) + "] "@ + subject(s, f.entity) + body_of(s, f.id)
        + interval(f.valid_from, f.valid_to) + hashtags(s, tags, tags.len())).push('\n')
}

/// The line of an edge; one whose parts do not resolve renders as nothing.
pub open spec fn edge_line(s: State, e: RecalledEdge) -> Seq<char> {
    match (name_of(s, e.src), name_of(s, e.dst)) {
        (Some(src), Some(dst)) => if e.rel.0 < s.terms.len() {
            ("- links: "@ + src + " —"@ + s.terms[e.rel.0 as int] + "→ "@ + dst).push('\n')
        } else {
            Seq::empty()
        },
        _ => Seq::empty(),
    }
}

/// The lines of the first `n` facts.
pub open spec fn fact_lines(s: State, facts: Seq<RecalledFact>, n: nat) -> Seq<char>
    decreases n,
{
    if n == 0 {
        Seq::empty()
    } else {
        fact_lines(s, facts, (n - 1) as nat) + fact_line(s, facts[n - 1])
    }
}

/// The lines of the first `n` edges.
pub open spec fn edge_lines(s: State, edges: Seq<RecalledEdge>, n: nat) -> Seq<char>
    decreases n,
{
    if n == 0 {
        Seq::empty()
    } else {
        edge_lines(s, edges, (n - 1) as nat) + edge_line(s, edges[n - 1])
    }
}

/// The prompt block: nothing when there is nothing to say.
pub open spec fn rendered(s: State, facts: Seq<RecalledFact>, edges: Seq<RecalledEdge>) -> Seq<
    char,
> {
    if facts.len() == 0 && edges.len() == 0 {
        Seq::empty()
    } else {
        "## memory\n"@ + fact_lines(s, facts, facts.len()) + edge_lines(s, edges, edges.len())
    }
}

/// The scored facts, in fused order.
pub open spec fn scored(fused: Seq<fuse::FusedView>, scores: Seq<F32Bits>) -> Seq<Scored> {
    Seq::new(fused.len(), |i: int| (scores[i], fused[i].id.0))
}

/// The response to a query: the ranked facts that fit, the edges, and the
/// block that shows them.
pub open spec fn response(
    s: State,
    fused: Seq<fuse::FusedView>,
    scores: Seq<F32Bits>,
    edges: Seq<RecalledEdge>,
    k: int,
    budget: int,
) -> RecallView {
    let order = rank::ranked(scored(fused, scores));
    let n = selected(s, order, k, budget);
    let facts = order.take(n).map_values(|x: Scored| recalled(s, fused, x));
    RecallView { facts, edges, rendered: rendered(s, facts, edges), truncated: n < order.len() }
}

impl RecallResult {
    /// The response to a query that nothing can match.
    pub fn none() -> (r: RecallResult)
        ensures
            r.facts@.len() == 0,
            r.edges@.len() == 0,
            r.rendered@.len() == 0,
            !r.truncated,
    {
        RecallResult {
            facts: Vec::new(),
            edges: Vec::new(),
            rendered: String::new(),
            truncated: false,
        }
    }
}

impl Memory {
    /// The canonical name of an entity, when it is readable.
    fn entity_name(&self, id: EntityId) -> (r: Option<&str>)
        requires
            self.wf(),
        ensures
            match r {
                Some(name) => name_of(self@, id) == Some(name@),
                None => name_of(self@, id) is None,
            },
    {
        let e: EntityRecord = match self.entities.get(id.0 as u128) {
            Some(e) => e,
            None => {
                return None;
            },
        };
        proof {
            self.entities.lemma_wf();
            table::lemma_rank(self.entities@, id.0 as int);
            let k = table::rank(self@.entities, id.0 as int);
            assert(state::entity_ok(self@, self@.entities[k]));
        }
        str_from_utf8(self.texts.get(e.name))
    }

    /// The bytes of a fact's text.
    fn text_bytes(&self, record: &FactRecord) -> (r: &[u8])
        requires
            self.wf(),
            exists|id: FactId| #[trigger] state::fact_of(self@, id) == Some(*record),
        ensures
            r@ == self@.texts[record.text.0 as int],
    {
        proof {
            let id = choose|id: FactId| #[trigger] state::fact_of(self@, id) == Some(*record);
            self.facts.lemma_wf();
            table::lemma_rank(self.facts@, id.0 as int);
            let k = table::rank(self@.facts, id.0 as int);
            assert(state::fact_ok(self@, self@.facts[k]));
        }
        self.texts.get(record.text)
    }

    /// Appends the subject prefix and the text of a fact.
    fn render_body(&self, out: &mut String, f: &RecalledFact)
        requires
            self.wf(),
        ensures
            final(out)@ == old(out)@ + (subject(self@, f.entity) + body_of(self@, f.id)),
    {
        let ghost s = self@;
        let ghost start = out@;
        if f.entity.0 != NONE_U32 {
            if let Some(name) = self.entity_name(f.entity) {
                out.append(name);
                out.append(": ");
            }
        }
        assert(out@ =~= start + subject(s, f.entity));
        if let Some(record) = self.fact(f.id) {
            assert(state::fact_of(s, f.id) == Some(record));
            if let Some(text) = str_from_utf8(self.text_bytes(&record)) {
                out.append(text);
            }
        }
        assert(out@ =~= start + (subject(s, f.entity) + body_of(s, f.id)));
    }

    /// Appends the tags of a fact.
    fn render_tags(&self, out: &mut String, id: FactId)
        requires
            self.wf(),
        ensures
            final(out)@ == old(out)@ + hashtags(
                self@,
                state::fact_tags(self@, id),
                state::fact_tags(self@, id).len(),
            ),
    {
        let ghost s = self@;
        let ghost start = out@;
        let tags: Vec<TermId> = self.tags_of(id);
        let mut i: usize = 0;
        assert(out@ =~= start + hashtags(s, tags@, 0));
        while i < tags.len()
            invariant
                i <= tags@.len(),
                s == self@,
                self.wf(),
                forall|k: int| 0 <= k < tags@.len() ==> (#[trigger] tags@[k]).0 < s.terms.len(),
                out@ == start + hashtags(s, tags@, i as nat),
            decreases tags@.len() - i,
        {
            let ghost before = hashtags(s, tags@, i as nat);
            let tag: TermId = tags[i];
            assert(tag.0 < s.terms.len());
            out.append(" #");
            out.append(self.term(tag));
            i = i + 1;
            assert(hashtags(s, tags@, i as nat) == before + " #"@ + s.terms[tag.0 as int]);
            assert(out@ =~= start + hashtags(s, tags@, i as nat));
        }
    }

    /// Appends the line of a fact.
    fn render_fact(&self, out: &mut String, f: &RecalledFact)
        requires
            self.wf(),
        ensures
            final(out)@ == old(out)@ + fact_line(self@, *f),
    {
        let ghost s = self@;
        let ghost start = out@;
        let ghost tags = state::fact_tags(s, f.id);
        out.append("- [f");
        push_number(out, f.id.0 as u64, 0);
        out.append("] ");
        let ghost number = calendar::decimal(f.id.0 as nat);
        self.render_body(out, f);
        render_interval(out, f.valid_from, f.valid_to);
        self.render_tags(out, f.id);
        push_char(out, '\n');
        proof {
            let body = subject(s, f.entity) + body_of(s, f.id);
            let span = interval(f.valid_from, f.valid_to);
            let marks = hashtags(s, tags, tags.len());
            lemma_line(start, number, subject(s, f.entity), body_of(s, f.id), span, marks);
        }
    }

    /// Appends the line of an edge.
    fn render_edge(&self, out: &mut String, e: &RecalledEdge)
        requires
            self.wf(),
        ensures
            final(out)@ == old(out)@ + edge_line(self@, *e),
    {
        let ghost start = out@;
        if let Some(src) = self.entity_name(e.src) {
            if let Some(dst) = self.entity_name(e.dst) {
                if (e.rel.0 as usize) < self.terms.len() {
                    out.append("- links: ");
                    out.append(src);
                    out.append(" —");
                    out.append(self.term(e.rel));
                    out.append("→ ");
                    out.append(dst);
                    push_char(out, '\n');
                }
            }
        }
        assert(out@ =~= start + edge_line(self@, *e));
    }

    /// Renders the compact prompt block.
    pub fn render(&self, facts: &Vec<RecalledFact>, edges: &Vec<RecalledEdge>) -> (r: String)
        requires
            self.wf(),
        ensures
            r@ == rendered(self@, facts@, edges@),
    {
        let ghost s = self@;
        let mut out: String = String::new();
        if facts.len() == 0 && edges.len() == 0 {
            assert(out@ =~= Seq::empty());
            return out;
        }
        out.append("## memory\n");
        let ghost head = "## memory\n"@;
        let mut i: usize = 0;
        assert(out@ =~= head + fact_lines(s, facts@, 0));
        while i < facts.len()
            invariant
                i <= facts@.len(),
                s == self@,
                self.wf(),
                out@ == head + fact_lines(s, facts@, i as nat),
            decreases facts@.len() - i,
        {
            self.render_fact(&mut out, &facts[i]);
            i = i + 1;
            assert(out@ =~= head + fact_lines(s, facts@, i as nat));
        }
        let ghost body = out@;
        let mut j: usize = 0;
        assert(out@ =~= body + edge_lines(s, edges@, 0));
        while j < edges.len()
            invariant
                j <= edges@.len(),
                s == self@,
                self.wf(),
                out@ == body + edge_lines(s, edges@, j as nat),
            decreases edges@.len() - j,
        {
            self.render_edge(&mut out, &edges[j]);
            j = j + 1;
            assert(out@ =~= body + edge_lines(s, edges@, j as nat));
        }
        out
    }

    /// Selects facts greedily by fused score under the count and the budget.
    fn select(&self, fused: &Vec<Fused>, order: &Vec<Scored>, k: usize, budget: usize) -> (r: Vec<
        RecalledFact,
    >)
        requires
            self.wf(),
            fuse::each_once(fuse::fused_views(fused@)),
            forall|i: int|
                0 <= i < order@.len() ==> state::fact_of(
                    self@,
                    FactId((#[trigger] order@[i]).1),
                ) is Some,
        ensures
            r@ == order@.take(selected(self@, order@, k as int, budget as int)).map_values(
                |x: Scored| recalled(self@, fuse::fused_views(fused@), x),
            ),
            r@.len() == selected(self@, order@, k as int, budget as int),
    {
        let ghost s = self@;
        let ghost views = fuse::fused_views(fused@);
        let ghost f = |x: Scored| recalled(s, views, x);
        let mut out: Vec<RecalledFact> = Vec::new();
        let mut used: usize = 0;
        let mut i: usize = 0;
        proof {
            assert(order@.take(0) =~= Seq::empty());
            assert(out@ =~= order@.take(0).map_values(f));
        }
        while i < order.len()
            invariant
                i <= order@.len(),
                s == self@,
                self.wf(),
                views == fuse::fused_views(fused@),
                fuse::each_once(views),
                f == (|x: Scored| recalled(s, views, x)),
                forall|n: int|
                    0 <= n < order@.len() ==> state::fact_of(
                        s,
                        FactId((#[trigger] order@[n]).1),
                    ) is Some,
                i <= k,
                used <= budget,
                used == spent(s, order@.take(i as int)),
                selected(s, order@.take(i as int), k as int, budget as int) == i,
                out@ == order@.take(i as int).map_values(f),
            decreases order@.len() - i,
        {
            let ghost next = order@.take(i + 1);
            proof {
                assert(next.drop_last() =~= order@.take(i as int));
                assert(next.last() == order@[i as int]);
            }
            let id: FactId = FactId(order[i].1);
            assert(state::fact_of(s, FactId(order@[i as int].1)) is Some);
            let mut full: bool = i == k;
            if let Some(record) = self.fact(id) {
                assert(state::fact_of(s, id) == Some(record));
                let cost: usize = self.text_bytes(&record).len() / 4 + 8;
                if !full && cost > budget - used {
                    full = true;
                }
                if full {
                    proof {
                        lemma_stops(s, order@, k as int, budget as int, i + 1);
                    }
                    return out;
                }
                used = used + cost;
                let sources: u8 = sources_of(fused, id);
                out.push(
                    RecalledFact {
                        id,
                        score: order[i].0,
                        sources,
                        entity: record.entity,
                        recorded_at: record.recorded_at,
                        valid_from: record.valid_from,
                        valid_to: record.valid_to,
                    },
                );
            }
            i = i + 1;
            assert(out@ =~= order@.take(i as int).map_values(f));
        }
        assert(order@.take(i as int) =~= order@);
        out
    }

    /// The response to a query, from its fused candidates and the score of
    /// each.
    pub fn respond(
        &self,
        fused: &Vec<Fused>,
        scores: &Vec<F32Bits>,
        edges: Vec<RecalledEdge>,
        k: usize,
        budget: usize,
    ) -> (r: RecallResult)
        requires
            self.wf(),
            scores@.len() == fused@.len(),
            fuse::each_once(fuse::fused_views(fused@)),
            forall|i: int|
                0 <= i < fused@.len() ==> state::fact_of(
                    self@,
                    (#[trigger] fused@[i]).id,
                ) is Some,
        ensures
            r@ == response(
                self@,
                fuse::fused_views(fused@),
                scores@,
                edges@,
                k as int,
                budget as int,
            ),
            selection::maximal(
                self@,
                fuse::fused_views(fused@),
                scores@,
                edges@,
                k as int,
                budget as int,
                r@,
            ),
            selection::shows_the_best(self@, fuse::fused_views(fused@), scores@, r@),
    {
        let ghost s = self@;
        let ghost views = fuse::fused_views(fused@);
        proof {
            assert forall|i: int| 0 <= i < views.len() implies state::fact_of(
                s,
                (#[trigger] views[i]).id,
            ) is Some by {
                assert(views[i].id == fused@[i].id);
            }
            selection::a_response_is_maximal(
                s,
                views,
                scores@,
                edges@,
                k as int,
                budget as int,
            );
            selection::a_response_shows_its_best_candidates(
                s,
                views,
                scores@,
                edges@,
                k as int,
                budget as int,
            );
        }
        let mut items: Vec<Scored> = Vec::new();
        let mut i: usize = 0;
        while i < fused.len()
            invariant
                i <= fused@.len(),
                scores@.len() == fused@.len(),
                views == fuse::fused_views(fused@),
                items@ == scored(views, scores@).take(i as int),
            decreases fused@.len() - i,
        {
            items.push((scores[i], fused[i].id.0));
            i = i + 1;
            assert(items@ =~= scored(views, scores@).take(i as int));
        }
        assert(items@ =~= scored(views, scores@));
        let n: usize = items.len();
        let order: Vec<Scored> = rank_top(&items, n);
        proof {
            rank::ranking_orders_the_items(items@);
            assert(order@ == rank::ranked(items@));
            assert forall|k: int| 0 <= k < order@.len() implies state::fact_of(
                s,
                FactId((#[trigger] order@[k]).1),
            ) is Some by {
                rank::ranked_items_are_given(items@, k);
                let j = items@.index_of(order@[k]);
                assert(fused@[j].id.0 == order@[k].1);
                assert(fused@[j].id == FactId(order@[k].1));
            }
        }
        let facts: Vec<RecalledFact> = self.select(fused, &order, k, budget);
        let truncated: bool = facts.len() < order.len();
        let rendered: String = self.render(&facts, &edges);
        RecallResult { facts, edges, rendered, truncated }
    }
}

/// Once selection has stopped, it takes no later fact.
proof fn lemma_stops(s: State, order: Seq<Scored>, k: int, budget: int, n: int)
    requires
        1 <= n <= order.len(),
        selected(s, order.take(n), k, budget) == n - 1,
    ensures
        selected(s, order, k, budget) == n - 1,
    decreases order.len(),
{
    if n == order.len() {
        assert(order.take(n) =~= order);
    } else {
        let front = order.drop_last();
        assert(front.take(n) =~= order.take(n));
        lemma_stops(s, front, k, budget, n);
    }
}

/// Appends the validity interval of a fact.
fn render_interval(out: &mut String, valid_from: u64, valid_to: u64)
    ensures
        final(out)@ == old(out)@ + interval(valid_from, valid_to),
{
    let ghost start = out@;
    out.append(" (");
    render_ym(out, valid_from);
    if valid_to == VALID_TO_OPEN {
        out.append("; active)");
    } else {
        out.append(" → ");
        render_ym(out, valid_to);
        out.append("; closed)");
    }
    assert(out@ =~= start + interval(valid_from, valid_to));
}

/// A line is the same however its parts are joined.
proof fn lemma_line(
    start: Seq<char>,
    number: Seq<char>,
    who: Seq<char>,
    body: Seq<char>,
    span: Seq<char>,
    marks: Seq<char>,
)
    ensures
        (start + "- [f"@ + number + "] "@ + (who + body) + span + marks).push('\n') == start + (
        "- [f"@ + number + "] "@ + who + body + span + marks).push('\n'),
{
    let a = start + "- [f"@ + number + "] "@ + (who + body) + span + marks;
    let b = "- [f"@ + number + "] "@ + who + body + span + marks;
    assert(a =~= start + b);
    assert(a.push('\n') =~= start + b.push('\n'));
}

/// The source bits of a fused fact.
fn sources_of(fused: &Vec<Fused>, id: FactId) -> (r: u8)
    requires
        fuse::each_once(fuse::fused_views(fused@)),
    ensures
        r == (match fuse::place_of(fuse::fused_views(fused@), id) {
            Some(i) => fuse::fused_views(fused@)[i].sources,
            None => 0,
        }),
{
    let ghost views = fuse::fused_views(fused@);
    let mut i: usize = 0;
    while i < fused.len()
        invariant
            i <= fused@.len(),
            views == fuse::fused_views(fused@),
            fuse::each_once(views),
            forall|k: int| 0 <= k < i ==> (#[trigger] views[k]).id != id,
        decreases fused@.len() - i,
    {
        assert(views[i as int] == fused@[i as int]@);
        if fused[i].id == id {
            assert(fuse::place_of(views, id) == Some(i as int)) by {
                assert(views[i as int].id == id);
            }
            return fused[i].sources;
        }
        i = i + 1;
    }
    0
}

pub proof fn lemma_selected_bound(s: State, order: Seq<Scored>, k: int, budget: int)
    requires
        k >= 0,
        budget >= 0,
    ensures
        0 <= selected(s, order, k, budget) <= order.len(),
        selected(s, order, k, budget) <= k,
        spent(s, order.take(selected(s, order, k, budget))) <= budget,
    decreases order.len(),
{
    if order.len() > 0 {
        let front = order.drop_last();
        lemma_selected_bound(s, front, k, budget);
        let n = selected(s, front, k, budget);
        assert(front.take(n) =~= order.take(n));
        assert(order.take(order.len() as int) =~= order);
    } else {
        assert(order.take(0) =~= order);
    }
}

/// A response is within the count and the token budget.
pub proof fn response_fits(
    s: State,
    fused: Seq<fuse::FusedView>,
    scores: Seq<F32Bits>,
    edges: Seq<RecalledEdge>,
    k: int,
    budget: int,
)
    requires
        k >= 0,
        budget >= 0,
    ensures
        ({
            let r = response(s, fused, scores, edges, k, budget);
            &&& r.facts.len() <= k
            &&& spent(s, rank::ranked(scored(fused, scores)).take(r.facts.len() as int)) <= budget
        }),
{
    let order = rank::ranked(scored(fused, scores));
    lemma_selected_bound(s, order, k, budget);
}

} // verus!
