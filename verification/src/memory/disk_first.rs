//! Writing a maintained snapshot without changing the engine, and the record
//! counts that the shard layout is judged by.

use crate::error::Error;
use crate::memory::maintain;
use crate::memory::maintain::{
    MaintainReport, MaintenanceMode, MaintenanceOptions, Prepared, WorkPlan,
    AUTO_HNSW_INSERT_BUDGET,
};
use crate::memory::persist;
use crate::memory::persist::Sections;
use crate::memory::shards;
use crate::memory::shards::{Population, ShardLayout};
use crate::memory::state::State;
use crate::memory::Memory;
use crate::snapshot::SnapshotSink;
use vstd::prelude::*;

verus! {

/// A rewritten image stays small enough for 64-bit offsets.
pub open spec fn rewrite_fits(s: State, o: MaintenanceOptions) -> bool {
    maintain::pass(s, maintain::plan_of(s, o)) matches Ok(t) ==> persist::image_fits(t)
}

/// The options of the default policy.
pub open spec fn default_options() -> MaintenanceOptions {
    MaintenanceOptions {
        mode: MaintenanceMode::Auto,
        max_hnsw_inserts: Some(AUTO_HNSW_INSERT_BUDGET),
    }
}

/// What writing a maintained image returns, and what it leaves in the sink. Once
/// the image is built, an error is one that the sink reports.
pub open spec fn rewritten(
    s: State,
    o: MaintenanceOptions,
    created_at: u64,
    before: Seq<u8>,
    after: Seq<u8>,
    reports: Set<Error>,
    r: Result<MaintainReport, Error>,
) -> bool {
    let plan = maintain::plan_of(s, o);
    if !plan.needed() {
        after == before && r == Ok::<_, Error>(
            MaintainReport {
                no_op: true,
                ..maintain::skeleton(
                    s,
                    maintain::satellite(s, plan.repack_edges) as u128,
                )
            },
        )
    } else {
        match (maintain::pass(s, plan), r) {
            (Err(e), _) => r == Err::<MaintainReport, _>(e),
            (Ok(t), Ok(report)) => after == persist::snapshot_image(t, created_at) && report
                == maintain::report_of(
                s,
                plan,
                t,
                maintain::purged_by(s, plan) as usize,
            ),
            (Ok(t), Err(e)) => reports.contains(e),
        }
    }
}

/// What writing the image of the default pass returns, and what it leaves in
/// the sink: the engine's own image when nothing is due.
pub open spec fn image_written(
    s: State,
    created_at: u64,
    after: Seq<u8>,
    reports: Set<Error>,
    r: Result<usize, Error>,
) -> bool {
    let plan = maintain::plan_of(s, default_options());
    let left = if plan.needed() {
        maintain::pass(s, plan)
    } else {
        Ok(s)
    };
    match (left, r) {
        (Err(e), _) => r == Err::<usize, _>(e),
        (Ok(t), Ok(n)) => after == persist::snapshot_image(t, created_at) && n == (
        if plan.needed() {
            maintain::purged_by(s, plan) as usize
        } else {
            0
        }),
        (Ok(t), Err(e)) => reports.contains(e),
    }
}

/// A disk-first image is the one that a snapshot behind the default pass
/// writes, byte for byte, and it leaves out as many facts as the pass purges.
pub proof fn a_disk_first_image_is_the_maintained_one(
    s: State,
    u: State,
    report: MaintainReport,
    created_at: u64,
    after: Seq<u8>,
    reports: Set<Error>,
    purged: usize,
)
    requires
        maintain::maintained(s, u, default_options(), Ok(report)),
        image_written(s, created_at, after, reports, Ok(purged)),
    ensures
        after == persist::snapshot_image(u, created_at),
        purged == report.purged,
{
}

/// The same of any policy: where it finds something to do, the image is that
/// of the engine behind the pass. The reports agree in either case.
pub proof fn a_rewritten_image_is_the_maintained_one(
    s: State,
    u: State,
    o: MaintenanceOptions,
    report: MaintainReport,
    created_at: u64,
    before: Seq<u8>,
    after: Seq<u8>,
    reports: Set<Error>,
    own: MaintainReport,
)
    requires
        maintain::maintained(s, u, o, Ok(report)),
        rewritten(s, o, created_at, before, after, reports, Ok(own)),
    ensures
        own == report,
        if report.no_op {
            after == before && u == s
        } else {
            after == persist::snapshot_image(u, created_at)
        },
{
}

/// The counts of a state, as the layout rule takes them: facts are counted
/// live.
pub open spec fn population_of(s: State) -> Population {
    Population {
        facts: if s.tombstones > s.facts.len() {
            0
        } else {
            (s.facts.len() - s.tombstones) as u64
        },
        entities: s.entities.len() as u64,
        edges: s.edges_out.len() as u64,
        edge_versions: s.hist_out.len() as u64,
        terms: s.bm25.postings.len() as u64,
        tags: s.tags_idx.len() as u64,
        documents: s.bm25.docs.len() as u64,
    }
}

impl Memory {
    /// Streams the image that a snapshot behind a default pass would write into
    /// `sink`, which must be empty; returns how many facts it leaves out. The
    /// engine itself does not change.
    pub fn snapshot_disk_first<K: SnapshotSink>(&self, created_at: u64, sink: &mut K) -> (r: Result<
        usize,
        Error,
    >)
        requires
            self.wf(),
            old(sink).written().len() == 0,
            persist::image_fits(self@),
            rewrite_fits(self@, default_options()),
        ensures
            image_written(
                self@,
                created_at,
                final(sink).written(),
                old(sink).reports(),
                r,
            ),
    {
        let options: MaintenanceOptions = MaintenanceOptions::auto();
        if !self.maintenance_needed(options) {
            self.write_snapshot_to(created_at, sink)?;
            return Ok(0);
        }
        let report: MaintainReport = self.snapshot_disk_first_with_options(
            created_at,
            sink,
            options,
        )?;
        Ok(report.purged)
    }

    /// Streams the image of a maintained engine into `sink`, which must be
    /// empty, and reports on it as a maintenance pass does. Nothing is written
    /// when the policy finds nothing to do. The engine itself does not change.
    ///
    /// The graph of the image has no new links; those that the host makes for a
    /// pass go into the image of [`Memory::write_prepared_snapshot`].
    pub fn snapshot_disk_first_with_options<K: SnapshotSink>(
        &self,
        created_at: u64,
        sink: &mut K,
        options: MaintenanceOptions,
    ) -> (r: Result<MaintainReport, Error>)
        requires
            self.wf(),
            old(sink).written().len() == 0,
            rewrite_fits(self@, options),
        ensures
            rewritten(
                self@,
                options,
                created_at,
                old(sink).written(),
                final(sink).written(),
                old(sink).reports(),
                r,
            ),
    {
        let plan: WorkPlan = self.work_plan(options);
        let mut report: MaintainReport = self.report_skeleton(
            self.satellite_bytes(plan.repack_edges),
        );
        if !plan.needs_work() {
            report.no_op = true;
            return Ok(report);
        }
        let p: Prepared = self.prepare(plan)?;
        let sections: Sections<'_> = self.prepared_sections(&p);
        sections.write_to(created_at, sink)?;
        Ok(self.report_rewrite(report, plan, &sections, p.count_purged(), p.graph_kept()))
    }

    /// What this engine currently holds, as the layout rule counts it.
    pub fn population(&self) -> (r: Population)
        requires
            self.wf(),
        ensures
            r == population_of(self@),
    {
        proof {
            self.facts.lemma_wf();
            self.entities.lemma_wf();
            self.bm25.lemma_wf();
            self.tags_idx.lemma_wf();
        }
        let facts: u64 = if self.tombstones > self.facts.len() {
            0
        } else {
            (self.facts.len() - self.tombstones) as u64
        };
        Population {
            facts,
            entities: self.entities.len() as u64,
            edges: self.edges_out.len() as u64,
            edge_versions: self.edges_hist_out.len() as u64,
            terms: self.bm25.postings().keys() as u64,
            tags: self.tags_idx.keys() as u64,
            documents: self.bm25.doc_len_arena().len() as u64,
        }
    }

    /// The layout this engine's contents call for.
    pub fn target_layout(&self) -> (r: ShardLayout)
        requires
            self.wf(),
        ensures
            r == shards::layout_for(population_of(self@)),
    {
        ShardLayout::for_population(&self.population())
    }

    /// Whether the stored layout is far enough from the one the contents call
    /// for.
    pub fn shard_layout_is_stale(&self) -> (r: bool)
        requires
            self.wf(),
        ensures
            r == ({
                let have = shards::layout_of(self@.cfg);
                let want = shards::layout_for(population_of(self@));
                shards::compacted_stale(have, want) || shards::earns_rebuild(
                    have.edges,
                    want.edges,
                )
            }),
    {
        let stored: ShardLayout = ShardLayout::of_config(&self.cfg);
        let target: ShardLayout = self.target_layout();
        stored.compacted_groups_earn_rebuild(&target) || stored.edges_earn_rebuild(&target)
    }
}

} // verus!
