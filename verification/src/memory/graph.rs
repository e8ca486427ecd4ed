//! The engine's vectors and the graph over them.

use crate::error::Error;
use crate::index::hnsw;
use crate::index::hnsw::HnswGraph;
use crate::index::vecpool::VecPool;
use crate::memory::compaction;
use crate::memory::state;
use crate::memory::state::State;
use crate::memory::whole;
use crate::memory::Memory;
use vstd::prelude::*;

verus! {

/// What adopting a graph does: one of other degree caps, or with a reference
/// that leads nowhere, is refused.
pub open spec fn adopted(s: State, ceiling: int, g: hnsw::HnswState) -> Result<State, Error> {
    if g.m != s.cfg.hnsw_m || g.m0 != s.cfg.hnsw_m0 || ceiling != s.cfg.max_bytes {
        Err(Error::ConfigMismatch("hnsw degree caps"))
    } else {
        match hnsw::graph_fault(g, s.cfg.dim as int, s.vecs) {
            Some(what) => Err(Error::Corrupt(what)),
            None => Ok(State { graph: g, ..s }),
        }
    }
}

impl Memory {
    /// The vectors of the facts.
    pub fn vectors(&self) -> (r: &VecPool)
        requires
            self.wf(),
        ensures
            r.wf(),
            r@ == self@.vecs,
            r.dimension() == self@.cfg.dim,
    {
        &self.vecs
    }

    /// The graph over the vectors.
    pub fn graph(&self) -> (r: &HnswGraph)
        requires
            self.wf(),
        ensures
            r.wf(),
            r@ == self@.graph,
    {
        &self.hnsw
    }

    /// An empty graph for this database.
    pub fn empty_graph(&self) -> (r: HnswGraph)
        requires
            self.wf(),
        ensures
            r.wf(),
            r@ == hnsw::no_nodes(self@.cfg.hnsw_m as int, self@.cfg.hnsw_m0 as int),
            r.ceiling() == self@.cfg.max_bytes,
    {
        HnswGraph::new(self.cfg.hnsw_m, self.cfg.hnsw_m0, self.cfg.max_bytes)
    }

    /// Puts a graph that the host has linked in place of the current one.
    pub fn adopt_graph(&mut self, graph: HnswGraph) -> (r: Result<(), Error>)
        requires
            old(self).wf(),
            graph.wf(),
        ensures
            final(self).wf(),
            match r {
                Ok(()) => adopted(old(self)@, graph.ceiling(), graph@) == Ok::<State, Error>(
                    final(self)@,
                ),
                Err(e) => adopted(old(self)@, graph.ceiling(), graph@) == Err::<State, Error>(e)
                    && final(self)@ == old(self)@,
            },
            compaction::unseen(old(self)@, final(self)@),
            whole::kept(old(self)@, final(self)@),
    {
        proof {
            whole::lemma_kept_same(self@);
            compaction::lemma_unseen_same(self@);
            compaction::links_are_unseen(self@, self@, graph@);
        }
        if !graph.is_for(self.cfg.hnsw_m, self.cfg.hnsw_m0, self.cfg.max_bytes) {
            return Err(Error::ConfigMismatch("hnsw degree caps"));
        }
        if let Err(e) = graph.validate(&self.vecs) {
            return Err(e);
        }
        let ghost s = self@;
        self.hnsw = graph;
        proof {
            reveal(state::graph_ok);
            assert(self@ =~= (State { graph: graph@, ..s }));
        }
        Ok(())
    }
}

} // verus!
