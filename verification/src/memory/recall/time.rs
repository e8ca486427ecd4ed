//! The temporal source: facts recorded in a range, newest first.

use crate::id::FactId;
use crate::memory::recall::admission;
use crate::memory::recall::admission::Allow;
use crate::memory::recall::graph;
use crate::memory::recall::sources;
use crate::memory::recall::graph::SOURCE_CAP;
use crate::memory::state;
use crate::memory::state::State;
use crate::memory::Memory;
use crate::model::{Slot, TemporalSlot};
use crate::table;
use vstd::prelude::*;

verus! {

/// Allow-sets up to this size are cheaper to inspect directly than to discover
/// through a broad temporal scan.
pub const TEMPORAL_TAG_FIRST_MAX: usize = 8192;

/// The key of the first temporal row of an instant.
pub open spec fn instant_key(t: u64) -> int {
    0x1_0000_0000 * (t as int)
}

/// The admitted facts of a run of temporal rows, newest first.
pub open spec fn admitted_rows(
    s: State,
    filter: Option<Seq<FactId>>,
    as_of: u64,
    include_closed: bool,
    rows: Seq<TemporalSlot>,
) -> Seq<FactId>
    decreases rows.len(),
{
    if rows.len() == 0 {
        Seq::empty()
    } else {
        let rest = admitted_rows(s, filter, as_of, include_closed, rows.drop_first());
        if admission::admitted(s, filter, as_of, include_closed, rows[0].fact) is Some {
            rest.push(rows[0].fact)
        } else {
            rest
        }
    }
}

/// At most as many of the first facts as a source returns.
pub open spec fn capped(xs: Seq<FactId>) -> Seq<FactId> {
    if xs.len() <= SOURCE_CAP {
        xs
    } else {
        xs.take(SOURCE_CAP as int)
    }
}

/// The facts recorded from `from` up to, not including, `to`, found by a scan
/// of the temporal rows.
pub open spec fn scanned(
    s: State,
    filter: Option<Seq<FactId>>,
    as_of: u64,
    include_closed: bool,
    from: u64,
    to: u64,
) -> Seq<FactId> {
    admitted_rows(
        s,
        filter,
        as_of,
        include_closed,
        graph::rows_between(s.temporal, instant_key(from), instant_key(to)),
    )
}

/// A new row behind every row that is newer.
pub open spec fn row_placed(rows: Seq<TemporalSlot>, row: TemporalSlot) -> Seq<TemporalSlot>
    decreases rows.len(),
{
    if rows.len() > 0 && rows.last().key() < row.key() {
        row_placed(rows.drop_last(), row).push(rows.last())
    } else {
        rows.push(row)
    }
}

/// The rows of the admitted facts among some ids that were recorded in a
/// range, newest first.
pub open spec fn tagged_rows(
    s: State,
    ids: Seq<FactId>,
    as_of: u64,
    include_closed: bool,
    from: u64,
    to: u64,
) -> Seq<TemporalSlot>
    decreases ids.len(),
{
    if ids.len() == 0 {
        Seq::empty()
    } else {
        let rest = tagged_rows(s, ids.drop_first(), as_of, include_closed, from, to);
        match admission::admitted(s, None, as_of, include_closed, ids[0]) {
            Some(f) => if from <= f.recorded_at && f.recorded_at < to {
                row_placed(rest, TemporalSlot { recorded_at: f.recorded_at, fact: ids[0] })
            } else {
                rest
            },
            None => rest,
        }
    }
}

/// The facts of some rows.
pub open spec fn facts_in(rows: Seq<TemporalSlot>) -> Seq<FactId> {
    rows.map_values(|r: TemporalSlot| r.fact)
}

/// What the temporal source returns: a small allow-set is inspected directly.
pub open spec fn time_facts(
    s: State,
    filter: Option<Seq<FactId>>,
    as_of: u64,
    include_closed: bool,
    from: u64,
    to: u64,
) -> Seq<FactId> {
    match filter {
        Some(ids) => if 0 < ids.len() && ids.len() <= TEMPORAL_TAG_FIRST_MAX {
            capped(facts_in(tagged_rows(s, ids, as_of, include_closed, from, to)))
        } else {
            capped(scanned(s, filter, as_of, include_closed, from, to))
        },
        None => capped(scanned(s, filter, as_of, include_closed, from, to)),
    }
}

/// The newest rows come first, so a longer run only adds behind them.
proof fn lemma_rows_prefix(
    s: State,
    filter: Option<Seq<FactId>>,
    as_of: u64,
    include_closed: bool,
    rows: Seq<TemporalSlot>,
    k: int,
)
    requires
        0 <= k <= rows.len(),
    ensures
        ({
            let all = admitted_rows(s, filter, as_of, include_closed, rows);
            let xs = admitted_rows(s, filter, as_of, include_closed, rows.skip(k));
            xs.len() <= all.len() && all.take(xs.len() as int) == xs
        }),
    decreases k,
{
    let all = admitted_rows(s, filter, as_of, include_closed, rows);
    if k == 0 {
        assert(rows.skip(0) =~= rows);
        assert(all.take(all.len() as int) =~= all);
    } else {
        let rest = rows.drop_first();
        assert(rest.skip(k - 1) =~= rows.skip(k));
        lemma_rows_prefix(s, filter, as_of, include_closed, rest, k - 1);
        let xs = admitted_rows(s, filter, as_of, include_closed, rows.skip(k));
        let front = admitted_rows(s, filter, as_of, include_closed, rest);
        assert(all.take(xs.len() as int) =~= front.take(xs.len() as int));
    }
}

/// Puts a row in its place among rows that are newest first.
fn place_row(rows: &mut Vec<TemporalSlot>, row: TemporalSlot)
    ensures
        final(rows)@ == row_placed(old(rows)@, row),
{
    let mut at: usize = rows.len();
    let key: u128 = row.key_of();
    let ghost all = rows@;
    assert(all.take(at as int) =~= all);
    assert(row_placed(all.take(at as int), row) + all.skip(at as int) =~= row_placed(all, row));
    while at > 0 && rows[at - 1].key_of() < key
        invariant
            at <= all.len(),
            rows@ == all,
            key == row.key(),
            row_placed(all.take(at as int), row) + all.skip(at as int) == row_placed(all, row),
        decreases at,
    {
        proof {
            let front = all.take(at as int);
            assert(front.drop_last() =~= all.take(at - 1));
            assert(front.last() == all[at - 1]);
            let p = row_placed(all.take(at - 1), row);
            assert(p.push(all[at - 1]) + all.skip(at as int) =~= p + all.skip(at - 1));
        }
        at = at - 1;
    }
    rows.insert(at, row);
    proof {
        let front = all.take(at as int);
        if at > 0 {
            assert(front.last() == all[at - 1]);
        }
        assert(rows@ =~= front.push(row) + all.skip(at as int));
    }
}

impl Memory {
    fn time_scan(
        &self,
        filter: &Option<Allow>,
        as_of: u64,
        include_closed: bool,
        from: u64,
        to: u64,
    ) -> (r: Vec<FactId>)
        requires
            self.wf(),
            filter matches Some(a) ==> a.wf(),
        ensures
            r@ == capped(
                scanned(
                    self@,
                    admission::allow_view(*filter),
                    as_of,
                    include_closed,
                    from,
                    to,
                ),
            ),
    {
        let ghost s = self@;
        let ghost ids = admission::allow_view(*filter);
        let start: usize = self.temporal.lower_bound(0x1_0000_0000 * (from as u128));
        let end: usize = self.temporal.lower_bound(0x1_0000_0000 * (to as u128));
        let ghost run = graph::rows_between(s.temporal, instant_key(from), instant_key(to));
        let ghost all = scanned(s, ids, as_of, include_closed, from, to);
        let mut out: Vec<FactId> = Vec::new();
        if start > end {
            assert(run =~= Seq::empty());
            return out;
        }
        let mut i: usize = end;
        proof {
            assert(run.skip(end - start) =~= Seq::empty());
        }
        while i > start
            invariant
                start <= i <= end <= self.temporal@.len(),
                self.wf(),
                filter matches Some(a) ==> a.wf(),
                s == self@,
                ids == admission::allow_view(*filter),
                run == s.temporal.subrange(start as int, end as int),
                all == admitted_rows(s, ids, as_of, include_closed, run),
                all == scanned(s, ids, as_of, include_closed, from, to),
                out@ == admitted_rows(s, ids, as_of, include_closed, run.skip(i - start)),
                out@.len() < SOURCE_CAP,
            decreases i,
        {
            let ghost tail = run.skip(i - start);
            i = i - 1;
            let row: TemporalSlot = self.temporal.row(i);
            let ghost more = run.skip(i - start);
            proof {
                assert(more.drop_first() =~= tail);
                assert(more[0] == row);
            }
            if self.admission(filter, as_of, include_closed, row.fact).is_some() {
                out.push(row.fact);
                if out.len() == SOURCE_CAP {
                    proof {
                        lemma_rows_prefix(s, ids, as_of, include_closed, run, i - start);
                        assert(all.take(all.len() as int) =~= all);
                    }
                    return out;
                }
            }
        }
        assert(run.skip(0) =~= run);
        out
    }

    fn time_from_tags(
        &self,
        allow: &Allow,
        as_of: u64,
        include_closed: bool,
        from: u64,
        to: u64,
    ) -> (r: Vec<FactId>)
        requires
            self.wf(),
        ensures
            r@ == capped(
                facts_in(tagged_rows(self@, allow@, as_of, include_closed, from, to)),
            ),
    {
        let ghost s = self@;
        let ids: &Vec<FactId> = allow.members();
        let mut rows: Vec<TemporalSlot> = Vec::new();
        let mut i: usize = ids.len();
        assert(ids@.skip(i as int) =~= Seq::empty());
        while i > 0
            invariant
                i <= ids@.len(),
                self.wf(),
                s == self@,
                rows@ == tagged_rows(s, ids@.skip(i as int), as_of, include_closed, from, to),
            decreases i,
        {
            i = i - 1;
            assert(ids@.skip(i as int).drop_first() =~= ids@.skip(i + 1));
            let id: FactId = ids[i];
            let open: Option<Allow> = None;
            if let Some(f) = self.admission(&open, as_of, include_closed, id) {
                if from <= f.recorded_at && f.recorded_at < to {
                    place_row(&mut rows, TemporalSlot { recorded_at: f.recorded_at, fact: id });
                }
            }
        }
        assert(ids@.skip(0) =~= ids@);
        let ghost facts = facts_in(rows@);
        let mut out: Vec<FactId> = Vec::new();
        let mut k: usize = 0;
        while k < rows.len() && k < SOURCE_CAP
            invariant
                k <= rows@.len(),
                k <= SOURCE_CAP,
                facts == facts_in(rows@),
                out@ == facts.take(k as int),
            decreases rows@.len() - k,
        {
            out.push(rows[k].fact);
            k = k + 1;
            assert(out@ =~= facts.take(k as int));
        }
        assert(facts.take(facts.len() as int) =~= facts);
        out
    }

    /// The temporal source: facts recorded in `[from, to)`, most recent first.
    pub fn time_source(
        &self,
        filter: &Option<Allow>,
        as_of: u64,
        include_closed: bool,
        from: u64,
        to: u64,
    ) -> (r: Vec<FactId>)
        requires
            self.wf(),
            filter matches Some(a) ==> a.wf(),
        ensures
            r@ == time_facts(
                self@,
                admission::allow_view(*filter),
                as_of,
                include_closed,
                from,
                to,
            ),
    {
        if let Some(a) = filter {
            let n: usize = a.members().len();
            if 0 < n && n <= TEMPORAL_TAG_FIRST_MAX {
                return self.time_from_tags(a, as_of, include_closed, from, to);
            }
        }
        self.time_scan(filter, as_of, include_closed, from, to)
    }
}

/// The temporal source returns admitted facts only.
pub proof fn facts_are_admitted(
    s: State,
    filter: Option<Seq<FactId>>,
    as_of: u64,
    include_closed: bool,
    from: u64,
    to: u64,
)
    ensures
        forall|i: int|
            0 <= i < time_facts(s, filter, as_of, include_closed, from, to).len()
                ==> admission::admitted(
                s,
                filter,
                as_of,
                include_closed,
                #[trigger] time_facts(s, filter, as_of, include_closed, from, to)[i],
            ) is Some,
{
    let run = graph::rows_between(s.temporal, instant_key(from), instant_key(to));
    lemma_rows_admitted(s, filter, as_of, include_closed, run);
    if let Some(ids) = filter {
        lemma_tags_admitted(s, ids, as_of, include_closed, from, to);
        let rows = tagged_rows(s, ids, as_of, include_closed, from, to);
        assert forall|i: int| 0 <= i < facts_in(rows).len() implies admission::admitted(
            s,
            filter,
            as_of,
            include_closed,
            #[trigger] facts_in(rows)[i],
        ) is Some by {
            assert(rows.contains(rows[i]));
        }
    }
}

proof fn lemma_rows_admitted(
    s: State,
    filter: Option<Seq<FactId>>,
    as_of: u64,
    include_closed: bool,
    rows: Seq<TemporalSlot>,
)
    ensures
        forall|i: int|
            0 <= i < admitted_rows(s, filter, as_of, include_closed, rows).len()
                ==> admission::admitted(
                s,
                filter,
                as_of,
                include_closed,
                #[trigger] admitted_rows(s, filter, as_of, include_closed, rows)[i],
            ) is Some,
    decreases rows.len(),
{
    if rows.len() > 0 {
        lemma_rows_admitted(s, filter, as_of, include_closed, rows.drop_first());
        let rest = admitted_rows(s, filter, as_of, include_closed, rows.drop_first());
        let all = admitted_rows(s, filter, as_of, include_closed, rows);
        assert forall|i: int| 0 <= i < all.len() implies admission::admitted(
            s,
            filter,
            as_of,
            include_closed,
            #[trigger] all[i],
        ) is Some by {
            if i < rest.len() {
                assert(all[i] == rest[i]);
            }
        }
    }
}

proof fn lemma_placed_members(rows: Seq<TemporalSlot>, row: TemporalSlot)
    ensures
        forall|r: TemporalSlot| #[trigger]
            row_placed(rows, row).contains(r) ==> r == row || rows.contains(r),
    decreases rows.len(),
{
    let p = row_placed(rows, row);
    if rows.len() > 0 && rows.last().key() < row.key() {
        let front = rows.drop_last();
        lemma_placed_members(front, row);
        let q = row_placed(front, row);
        assert forall|r: TemporalSlot| #[trigger] p.contains(r) implies r == row || rows.contains(
            r,
        ) by {
            let j = p.index_of(r);
            if j < q.len() {
                assert(q[j] == r);
                assert(q.contains(r));
                if r != row {
                    let n = front.index_of(r);
                    assert(rows[n] == r);
                }
            } else {
                assert(rows[rows.len() - 1] == r);
            }
        }
    } else {
        assert forall|r: TemporalSlot| #[trigger] p.contains(r) implies r == row || rows.contains(
            r,
        ) by {
            let j = p.index_of(r);
            if j < rows.len() {
                assert(rows[j] == r);
            }
        }
    }
}

proof fn lemma_tags_admitted(
    s: State,
    ids: Seq<FactId>,
    as_of: u64,
    include_closed: bool,
    from: u64,
    to: u64,
)
    ensures
        forall|r: TemporalSlot| #[trigger]
            tagged_rows(s, ids, as_of, include_closed, from, to).contains(r) ==> ids.contains(
                r.fact,
            ) && admission::admitted(s, None, as_of, include_closed, r.fact) is Some,
    decreases ids.len(),
{
    let rows = tagged_rows(s, ids, as_of, include_closed, from, to);
    if ids.len() > 0 {
        let tail = ids.drop_first();
        let rest = tagged_rows(s, tail, as_of, include_closed, from, to);
        lemma_tags_admitted(s, tail, as_of, include_closed, from, to);
        assert forall|f: FactId| #[trigger] tail.contains(f) implies ids.contains(f) by {
            let j = tail.index_of(f);
            assert(ids[j + 1] == f);
        }
        assert(ids.contains(ids[0]));
        if let Some(f) = admission::admitted(s, None, as_of, include_closed, ids[0]) {
            lemma_placed_members(
                rest,
                TemporalSlot { recorded_at: f.recorded_at, fact: ids[0] },
            );
        }
    }
}

/// The temporal rows are exactly those of the facts on record.
pub open spec fn rows_agree(s: State) -> bool {
    &&& forall|i: int|
        0 <= i < s.temporal.len() ==> (state::fact_of(
            s,
            (#[trigger] s.temporal[i]).fact,
        ) matches Some(f) ==> f.recorded_at == s.temporal[i].recorded_at)
    &&& forall|id: FactId| (#[trigger] state::fact_of(s, id)) matches Some(f) ==> table::has_key(
        s.temporal,
        instant_key(f.recorded_at) + id.0,
    )
}

/// Strictly newest first.
pub open spec fn newest_first(rows: Seq<TemporalSlot>) -> bool {
    forall|i: int, j: int|
        0 <= i < j < rows.len() ==> (#[trigger] rows[j]).key() < (#[trigger] rows[i]).key()
}

/// The rows of the admitted facts of a run, newest first.
pub open spec fn kept_rows(
    s: State,
    filter: Option<Seq<FactId>>,
    as_of: u64,
    include_closed: bool,
    rows: Seq<TemporalSlot>,
) -> Seq<TemporalSlot>
    decreases rows.len(),
{
    if rows.len() == 0 {
        Seq::empty()
    } else {
        let rest = kept_rows(s, filter, as_of, include_closed, rows.drop_first());
        if admission::admitted(s, filter, as_of, include_closed, rows[0].fact) is Some {
            rest.push(rows[0])
        } else {
            rest
        }
    }
}

proof fn lemma_kept(
    s: State,
    filter: Option<Seq<FactId>>,
    as_of: u64,
    include_closed: bool,
    rows: Seq<TemporalSlot>,
)
    requires
        table::ascending(rows),
    ensures
        ({
            let kept = kept_rows(s, filter, as_of, include_closed, rows);
            &&& facts_in(kept) == admitted_rows(s, filter, as_of, include_closed, rows)
            &&& newest_first(kept)
            &&& forall|r: TemporalSlot| #[trigger]
                kept.contains(r) <==> rows.contains(r) && admission::admitted(
                    s,
                    filter,
                    as_of,
                    include_closed,
                    r.fact,
                ) is Some
        }),
    decreases rows.len(),
{
    let kept = kept_rows(s, filter, as_of, include_closed, rows);
    if rows.len() == 0 {
        assert(facts_in(kept) =~= Seq::empty());
        assert(kept =~= Seq::empty());
        assert forall|r: TemporalSlot| !rows.contains(r) by {}
    } else {
        let tail = rows.drop_first();
        let rest = kept_rows(s, filter, as_of, include_closed, tail);
        lemma_kept(s, filter, as_of, include_closed, tail);
        if admission::admitted(s, filter, as_of, include_closed, rows[0].fact) is Some {
            assert(facts_in(kept) =~= facts_in(rest).push(rows[0].fact));
            assert forall|i: int| 0 <= i < rest.len() implies rows[0].key() < (
            #[trigger] rest[i]).key() by {
                assert(rest.contains(rest[i]));
                let j = tail.index_of(rest[i]);
                assert(tail[j] == rows[j + 1]);
            }
        }
        assert forall|r: TemporalSlot| #[trigger]
            kept.contains(r) <==> rows.contains(r) && admission::admitted(
                s,
                filter,
                as_of,
                include_closed,
                r.fact,
            ) is Some by {
            let ok = admission::admitted(s, filter, as_of, include_closed, r.fact) is Some;
            assert(rows =~= seq![rows[0]] + tail);
            assert(rows.contains(r) <==> r == rows[0] || tail.contains(r)) by {
                if rows.contains(r) && r != rows[0] {
                    let j = rows.index_of(r);
                    assert(tail[j - 1] == r);
                }
                if tail.contains(r) {
                    let j = tail.index_of(r);
                    assert(rows[j + 1] == r);
                }
                assert(rows[0] == rows[0]);
            }
            if admission::admitted(s, filter, as_of, include_closed, rows[0].fact) is Some {
                assert(kept.contains(r) <==> r == rows[0] || rest.contains(r)) by {
                    if rest.contains(r) {
                        let j = rest.index_of(r);
                        assert(kept[j] == r);
                    }
                    assert(kept[rest.len() as int] == rows[0]);
                    if kept.contains(r) {
                        let j = kept.index_of(r);
                        if j < rest.len() {
                            assert(rest[j] == r);
                        }
                    }
                }
            }
        }
    }
}

proof fn lemma_row_placed(rows: Seq<TemporalSlot>, row: TemporalSlot)
    requires
        newest_first(rows),
        forall|i: int| 0 <= i < rows.len() ==> (#[trigger] rows[i]).key() != row.key(),
    ensures
        newest_first(row_placed(rows, row)),
        forall|r: TemporalSlot| #[trigger]
            row_placed(rows, row).contains(r) <==> r == row || rows.contains(r),
    decreases rows.len(),
{
    let p = row_placed(rows, row);
    if rows.len() > 0 && rows.last().key() < row.key() {
        let front = rows.drop_last();
        assert(newest_first(front));
        lemma_row_placed(front, row);
        let q = row_placed(front, row);
        assert forall|i: int| 0 <= i < q.len() implies rows.last().key() < (
        #[trigger] q[i]).key() by {
            assert(q.contains(q[i]));
            if q[i] != row {
                let j = front.index_of(q[i]);
                assert(rows[j] == q[i]);
            }
        }
        assert forall|r: TemporalSlot| #[trigger] p.contains(r) <==> r == row || rows.contains(r) by {
            assert(p[q.len() as int] == rows.last());
            assert(rows[rows.len() - 1] == rows.last());
            if p.contains(r) {
                let j = p.index_of(r);
                if j < q.len() {
                    assert(q[j] == r);
                    assert(q.contains(r));
                    if r != row {
                        let n = front.index_of(r);
                        assert(rows[n] == r);
                    }
                }
            }
            if r == row || rows.contains(r) {
                if r == row || front.contains(r) {
                    assert(q.contains(r));
                    let j = q.index_of(r);
                    assert(p[j] == r);
                } else {
                    let n = rows.index_of(r);
                    assert(n == rows.len() - 1) by {
                        if n < rows.len() - 1 {
                            assert(front[n] == r);
                        }
                    }
                }
            }
        }
    } else {
        assert forall|i: int| 0 <= i < rows.len() implies row.key() < (#[trigger] rows[i]).key() by {
            assert(rows[rows.len() - 1] == rows.last());
        }
        assert forall|r: TemporalSlot| #[trigger] p.contains(r) <==> r == row || rows.contains(r) by {
            assert(p[rows.len() as int] == row);
            if rows.contains(r) {
                let n = rows.index_of(r);
                assert(p[n] == r);
            }
            if p.contains(r) {
                let j = p.index_of(r);
                if j < rows.len() {
                    assert(rows[j] == r);
                }
            }
        }
    }
}

proof fn lemma_tagged(
    s: State,
    ids: Seq<FactId>,
    as_of: u64,
    include_closed: bool,
    from: u64,
    to: u64,
)
    requires
        forall|i: int, j: int| 0 <= i < j < ids.len() ==> #[trigger] ids[i] != #[trigger] ids[j],
    ensures
        ({
            let rows = tagged_rows(s, ids, as_of, include_closed, from, to);
            &&& newest_first(rows)
            &&& forall|r: TemporalSlot| #[trigger]
                rows.contains(r) <==> ids.contains(r.fact) && from <= r.recorded_at
                    && r.recorded_at < to && (admission::admitted(
                    s,
                    None,
                    as_of,
                    include_closed,
                    r.fact,
                ) matches Some(f) && f.recorded_at == r.recorded_at)
        }),
    decreases ids.len(),
{
    let rows = tagged_rows(s, ids, as_of, include_closed, from, to);
    if ids.len() == 0 {
        assert(rows =~= Seq::empty());
        assert forall|f: FactId| !ids.contains(f) by {}
    } else {
        let tail = ids.drop_first();
        let rest = tagged_rows(s, tail, as_of, include_closed, from, to);
        assert forall|i: int, j: int| 0 <= i < j < tail.len() implies #[trigger] tail[i]
            != #[trigger] tail[j] by {
            assert(tail[i] == ids[i + 1] && tail[j] == ids[j + 1]);
        }
        lemma_tagged(s, tail, as_of, include_closed, from, to);
        assert forall|f: FactId| #[trigger] ids.contains(f) <==> f == ids[0] || tail.contains(
            f,
        ) by {
            if ids.contains(f) && f != ids[0] {
                let j = ids.index_of(f);
                assert(tail[j - 1] == f);
            }
            if tail.contains(f) {
                let j = tail.index_of(f);
                assert(ids[j + 1] == f);
            }
            assert(ids[0] == ids[0]);
        }
        assert(!tail.contains(ids[0])) by {
            if tail.contains(ids[0]) {
                let j = tail.index_of(ids[0]);
                assert(ids[j + 1] == ids[0]);
            }
        }
        if let Some(f) = admission::admitted(s, None, as_of, include_closed, ids[0]) {
            let row = TemporalSlot { recorded_at: f.recorded_at, fact: ids[0] };
            if from <= f.recorded_at && f.recorded_at < to {
                assert forall|i: int| 0 <= i < rest.len() implies (#[trigger] rest[i]).key()
                    != row.key() by {
                    assert(rest.contains(rest[i]));
                    assert(rest[i].fact != ids[0]);
                }
                lemma_row_placed(rest, row);
            }
        }
    }
}

/// Rows that are strictly newest first and hold the same rows are the same.
proof fn lemma_order_unique(a: Seq<TemporalSlot>, b: Seq<TemporalSlot>)
    requires
        newest_first(a),
        newest_first(b),
        forall|r: TemporalSlot| #[trigger] a.contains(r) <==> b.contains(r),
    ensures
        a == b,
    decreases a.len(),
{
    if a.len() == 0 {
        if b.len() > 0 {
            assert(b.contains(b[0]));
            assert(a.contains(b[0]));
        }
        assert(a =~= b);
    } else {
        let x = a.last();
        assert(a[a.len() - 1] == x);
        assert(a.contains(x));
        assert(b.contains(x));
        let k = b.index_of(x);
        let y = b.last();
        assert(b[b.len() - 1] == y);
        assert(b.contains(y));
        assert(a.contains(y));
        let n = a.index_of(y);
        assert(x == y) by {
            if n < a.len() - 1 {
                assert(x.key() < y.key());
                assert(k == b.len() - 1 || y.key() < x.key());
            }
        }
        let c = a.drop_last();
        let d = b.drop_last();
        assert forall|r: TemporalSlot| #[trigger] c.contains(r) <==> d.contains(r) by {
            if c.contains(r) {
                let i = c.index_of(r);
                assert(a[i] == r && a.contains(r));
                let j = b.index_of(r);
                assert(j < b.len() - 1) by {
                    if j == b.len() - 1 {
                        assert(r == x);
                        assert(x.key() < a[i].key());
                    }
                }
                assert(d[j] == r);
            }
            if d.contains(r) {
                let j = d.index_of(r);
                assert(b[j] == r && b.contains(r));
                assert(a.contains(r));
                let i = a.index_of(r);
                assert(i < a.len() - 1) by {
                    if i == a.len() - 1 {
                        assert(r == x);
                        assert(x.key() < b[j].key());
                    }
                }
                assert(c[i] == r);
            }
        }
        lemma_order_unique(c, d);
        assert(a =~= c.push(x));
        assert(b =~= d.push(y));
    }
}

/// Inspecting the allow-set gives what the temporal scan gives, in the same
/// order: the choice between the two is one of cost alone.
pub proof fn both_ways_agree(
    s: State,
    ids: Seq<FactId>,
    as_of: u64,
    include_closed: bool,
    from: u64,
    to: u64,
)
    requires
        rows_agree(s),
        table::ascending(s.temporal),
        forall|i: int, j: int| 0 <= i < j < ids.len() ==> #[trigger] ids[i] != #[trigger] ids[j],
    ensures
        facts_in(tagged_rows(s, ids, as_of, include_closed, from, to)) == scanned(
            s,
            Some(ids),
            as_of,
            include_closed,
            from,
            to,
        ),
{
    let rows = s.temporal;
    let lo = table::rank(rows, instant_key(from));
    let hi = table::rank(rows, instant_key(to));
    let run = graph::rows_between(rows, instant_key(from), instant_key(to));
    table::lemma_rank(rows, instant_key(from));
    table::lemma_rank(rows, instant_key(to));
    assert(table::ascending(run)) by {
        assert forall|i: int, j: int| 0 <= i < j < run.len() implies (#[trigger] run[i]).key() < (
        #[trigger] run[j]).key() by {
            assert(run[i] == rows[lo + i] && run[j] == rows[lo + j]);
        }
    }
    lemma_kept(s, Some(ids), as_of, include_closed, run);
    lemma_tagged(s, ids, as_of, include_closed, from, to);
    let a = tagged_rows(s, ids, as_of, include_closed, from, to);
    let b = kept_rows(s, Some(ids), as_of, include_closed, run);
    assert forall|r: TemporalSlot| #[trigger] a.contains(r) <==> b.contains(r) by {
        if a.contains(r) {
            let f = state::fact_of(s, r.fact)->0;
            assert(table::has_key(rows, instant_key(f.recorded_at) + r.fact.0));
            let k = choose|k: int|
                0 <= k < rows.len() && (#[trigger] rows[k]).key() == instant_key(f.recorded_at)
                    + r.fact.0;
            assert(rows[k].recorded_at == r.recorded_at && rows[k].fact == r.fact);
            assert(lo <= k && k < hi);
            assert(run[k - lo] == r);
            assert(run.contains(r));
        }
        if b.contains(r) {
            assert(run.contains(r));
            let j = run.index_of(r);
            assert(run[j] == rows[lo + j]);
            assert(rows[lo + j] == r);
        }
    }
    lemma_order_unique(a, b);
}

/// A fact stands at an earlier place for being newer: recorded later, or at the
/// same instant with a higher number.
pub open spec fn newer(s: State, a: FactId, b: FactId) -> bool {
    match (state::fact_of(s, a), state::fact_of(s, b)) {
        (Some(f), Some(g)) => f.recorded_at > g.recorded_at || (f.recorded_at == g.recorded_at
            && a.0 > b.0),
        _ => false,
    }
}

/// An eligible fact that was recorded from `from` up to, not including, `to`.
pub open spec fn in_range(
    s: State,
    filter: Option<Seq<FactId>>,
    as_of: u64,
    include_closed: bool,
    from: u64,
    to: u64,
    id: FactId,
) -> bool {
    sources::eligible(s, filter, as_of, include_closed, id) && from <= state::fact_of(
        s,
        id,
    )->0.recorded_at < to
}

/// An answer of the temporal source: the eligible facts recorded in the range,
/// newest first; one is missing only where 128 newer ones are returned.
pub open spec fn time_answer(
    s: State,
    filter: Option<Seq<FactId>>,
    as_of: u64,
    include_closed: bool,
    from: u64,
    to: u64,
    r: Seq<FactId>,
) -> bool {
    &&& r.len() <= 128
    &&& forall|i: int|
        0 <= i < r.len() ==> in_range(
            s,
            filter,
            as_of,
            include_closed,
            from,
            to,
            #[trigger] r[i],
        )
    &&& forall|i: int, j: int|
        0 <= i < j < r.len() ==> newer(s, #[trigger] r[i], #[trigger] r[j])
    &&& forall|id: FactId| #[trigger]
        in_range(s, filter, as_of, include_closed, from, to, id) ==> r.contains(id) || (r.len()
            == 128 && forall|i: int| 0 <= i < r.len() ==> newer(s, #[trigger] r[i], id))
}

/// The temporal source returns every eligible fact of the range.
pub proof fn the_range_is_answered(
    s: State,
    filter: Option<Seq<FactId>>,
    as_of: u64,
    include_closed: bool,
    from: u64,
    to: u64,
)
    requires
        rows_agree(s),
        table::ascending(s.temporal),
        table::ascending(s.facts),
        filter matches Some(ids) ==> forall|i: int, j: int|
            0 <= i < j < ids.len() ==> #[trigger] ids[i] != #[trigger] ids[j],
    ensures
        time_answer(
            s,
            filter,
            as_of,
            include_closed,
            from,
            to,
            time_facts(s, filter, as_of, include_closed, from, to),
        ),
{
    let rows = s.temporal;
    let lo = table::rank(rows, instant_key(from));
    let run = graph::rows_between(rows, instant_key(from), instant_key(to));
    table::lemma_rank(rows, instant_key(from));
    table::lemma_rank(rows, instant_key(to));
    assert(table::ascending(run)) by {
        assert forall|i: int, j: int| 0 <= i < j < run.len() implies (#[trigger] run[i]).key() < (
        #[trigger] run[j]).key() by {
            assert(run[i] == rows[lo + i] && run[j] == rows[lo + j]);
        }
    }
    lemma_kept(s, filter, as_of, include_closed, run);
    let all = kept_rows(s, filter, as_of, include_closed, run);
    let xs = facts_in(all);
    let r = time_facts(s, filter, as_of, include_closed, from, to);
    if let Some(ids) = filter {
        both_ways_agree(s, ids, as_of, include_closed, from, to);
    }
    assert(r == capped(xs));
    assert forall|i: int| 0 <= i < xs.len() implies in_range(
        s,
        filter,
        as_of,
        include_closed,
        from,
        to,
        #[trigger] xs[i],
    ) && state::fact_of(s, xs[i])->0.recorded_at == all[i].recorded_at by {
        assert(all.contains(all[i]));
        sources::the_rule_admits_eligible_facts(s, filter, as_of, include_closed, xs[i]);
        let k = run.index_of(all[i]);
        assert(run[k] == rows[lo + k]);
        assert(rows[lo + k] == all[i]);
        assert(rows[lo + k].key() >= instant_key(from));
        assert(rows[lo + k].key() < instant_key(to));
    }
    assert forall|i: int, j: int| 0 <= i < j < xs.len() implies newer(
        s,
        #[trigger] xs[i],
        #[trigger] xs[j],
    ) by {
        assert(all[j].key() < all[i].key());
        assert(xs[i] == all[i].fact && xs[j] == all[j].fact);
    }
    assert forall|id: FactId| #[trigger]
        in_range(s, filter, as_of, include_closed, from, to, id) implies xs.contains(id) by {
        sources::the_rule_admits_eligible_facts(s, filter, as_of, include_closed, id);
        let f = state::fact_of(s, id)->0;
        assert(table::has_key(rows, instant_key(f.recorded_at) + id.0));
        let k = choose|k: int|
            0 <= k < rows.len() && (#[trigger] rows[k]).key() == instant_key(f.recorded_at) + id.0;
        assert(rows[k].recorded_at == f.recorded_at && rows[k].fact == id);
        assert(lo <= k && k < table::rank(rows, instant_key(to)));
        assert(run[k - lo] == rows[k]);
        assert(run.contains(rows[k]));
        assert(all.contains(rows[k]));
        let i = all.index_of(rows[k]);
        assert(xs[i] == id);
    }
    assert forall|id: FactId| #[trigger]
        in_range(s, filter, as_of, include_closed, from, to, id) implies r.contains(id) || (r.len()
        == 128 && forall|i: int| 0 <= i < r.len() ==> newer(s, #[trigger] r[i], id)) by {
        let k = xs.index_of(id);
        assert(xs[k] == id);
        if k < r.len() {
            assert(r[k] == id);
        } else {
            assert forall|i: int| 0 <= i < r.len() implies newer(s, #[trigger] r[i], id) by {
                assert(r[i] == xs[i]);
            }
        }
    }
}

} // verus!
