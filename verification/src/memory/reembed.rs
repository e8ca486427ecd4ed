//! Explicit replacement of the complete vector axis.
//!
//! The core never calls a model. It hands out the texts of every retained fact
//! and the batches to ask for; the host embeds and quantizes them; and this
//! module checks the answers and writes a new snapshot whose other indexes and
//! temporal history are those of the source. The graph over the new vectors is
//! the one that the host linked, or an empty one.

use crate::config;
use crate::config::Config;
use crate::error::Error;
use crate::float::F32Bits;
use crate::id::{FactId, NONE_U32};
use crate::index::hnsw;
use crate::index::hnsw::HnswGraph;
use crate::index::vecpool;
use crate::index::vecpool::VecPool;
use crate::memory::graph;
use crate::memory::maintain;
use crate::memory::persist;
use crate::memory::persist::Sections;
use crate::memory::state;
use crate::memory::state::State;
use crate::memory::Memory;
use crate::model::{fact_flags, FactRecord, Slot};
use crate::snapshot::SnapshotSink;
use crate::table;
use crate::table::Table;
use crate::text::str_from_utf8;
use vstd::prelude::*;
use vstd::string::*;
use vstd::utf8::*;

verus! {

/// One quantized vector: its scale and its components.
pub type Quantized = (F32Bits, Vec<u8>);

/// Result of replacing every retained fact's embedding.
#[derive(Clone, Debug, PartialEq, Eq)]
pub struct ReembedReport {
    /// Space recorded before the operation (`None` for an untracked database).
    pub previous_space: Option<String>,
    /// Space recorded with the newly published vectors.
    pub new_space: String,
    /// Previous vector dimension.
    pub previous_dim: usize,
    /// New vector dimension.
    pub new_dim: usize,
    /// Facts embedded that are not forgotten, closed revisions included.
    pub embedded: usize,
    /// Forgotten records kept but never sent to the embedder.
    pub tombstones_skipped: usize,
    /// New vector-pool bytes before snapshot framing.
    pub vector_bytes: u64,
    /// Slots of the new graph: those that the host linked, or none. Links rest
    /// on floating-point similarities.
    pub hnsw_indexed: u32,
}

/// Failure from either the engine-side rewrite or the caller's embedder.
#[derive(Debug)]
pub enum ReembedError<E> {
    /// Validation, capacity or snapshot failure.
    Engine(Error),
    /// Error returned by the host's embedder.
    Embedder(E),
}

/// The facts that are not forgotten, in id order.
pub open spec fn retained(facts: Seq<FactRecord>) -> Seq<FactRecord>
    decreases facts.len(),
{
    if facts.len() == 0 {
        Seq::empty()
    } else {
        let front = retained(facts.drop_last());
        if facts.last().tombstone() {
            front
        } else {
            front.push(facts.last())
        }
    }
}

/// A record on the new vector axis: a retained fact gets the next slot, a
/// forgotten one has none.
pub open spec fn reembedded_fact(f: FactRecord, slot: int) -> FactRecord {
    if f.tombstone() {
        FactRecord { flags: f.flags & !fact_flags::HAS_VECTOR, vector: NONE_U32, ..f }
    } else {
        FactRecord { flags: f.flags | fact_flags::HAS_VECTOR, vector: slot as u32, ..f }
    }
}

/// The records on the new vector axis.
pub open spec fn facts_reembedded(facts: Seq<FactRecord>) -> Seq<FactRecord> {
    Seq::new(facts.len(), |i: int| reembedded_fact(facts[i], retained(facts.take(i)).len() as int))
}

/// The number of batches for `n` texts.
pub open spec fn batch_count(n: int, size: int) -> int {
    (n + size - 1) / size
}

/// Where batch `k` ends.
pub open spec fn batch_end(n: int, size: int, k: int) -> int {
    if (k + 1) * size < n {
        (k + 1) * size
    } else {
        n
    }
}

/// The batches of `n` texts as ranges: full ones, then the rest.
pub open spec fn batches(n: int, size: int) -> Seq<(int, int)> {
    Seq::new(batch_count(n, size) as nat, |k: int| (k * size, batch_end(n, size, k)))
}

pub open spec fn range_views(xs: Seq<(usize, usize)>) -> Seq<(int, int)> {
    xs.map_values(|x: (usize, usize)| (x.0 as int, x.1 as int))
}

/// The batches cover every text once, in order, and none is larger than asked.
pub proof fn batches_cover_the_texts(n: int, size: int, k: int)
    requires
        0 <= n,
        0 < size,
        0 <= k < batch_count(n, size),
    ensures
        batches(n, size)[k].0 < batches(n, size)[k].1,
        batches(n, size)[k].1 - batches(n, size)[k].0 <= size,
        k == 0 ==> batches(n, size)[k].0 == 0,
        k + 1 < batch_count(n, size) ==> batches(n, size)[k].1 == batches(n, size)[k + 1].0,
        k + 1 == batch_count(n, size) ==> batches(n, size)[k].1 == n,
{
    lemma_batches(n, size, k);
}

proof fn lemma_batches(n: int, size: int, k: int)
    by (nonlinear_arith)
    requires
        0 <= n,
        0 < size,
        0 <= k < (n + size - 1) / size,
    ensures
        k * size < n,
        (k + 1) * size == k * size + size,
        k + 1 < (n + size - 1) / size ==> (k + 1) * size < n,
        k + 1 == (n + size - 1) / size ==> (k + 1) * size >= n,
{
}

/// The ranges of texts to embed together.
pub fn embed_batches(n: usize, batch_size: usize) -> (r: Result<Vec<(usize, usize)>, Error>)
    ensures
        match r {
            Ok(out) => batch_size > 0 && range_views(out@) == batches(n as int, batch_size as int),
            Err(e) => batch_size == 0 && e == Error::Invalid("reembed batch size must be nonzero"),
        },
{
    if batch_size == 0 {
        return Err(Error::Invalid("reembed batch size must be nonzero"));
    }
    let mut out: Vec<(usize, usize)> = Vec::new();
    let mut at: usize = 0;
    let ghost count = batch_count(n as int, batch_size as int);
    proof {
        assert(range_views(out@) =~= Seq::empty());
        lemma_count(n as int, batch_size as int, 0);
    }
    while at < n
        invariant
            at <= n,
            batch_size > 0,
            count == batch_count(n as int, batch_size as int),
            out@.len() <= count,
            at < n ==> at == out@.len() * batch_size && out@.len() < count,
            at == n ==> out@.len() == count,
            range_views(out@) == batches(n as int, batch_size as int).take(out@.len() as int),
        decreases n - at,
    {
        let end: usize = if n - at > batch_size {
            at + batch_size
        } else {
            n
        };
        let ghost k = out@.len() as int;
        proof {
            lemma_batches(n as int, batch_size as int, k);
        }
        out.push((at, end));
        at = end;
        proof {
            lemma_count(n as int, batch_size as int, k + 1);
            assert(range_views(out@) =~= batches(n as int, batch_size as int).take(k + 1));
        }
    }
    assert(range_views(out@) =~= batches(n as int, batch_size as int));
    Ok(out)
}

/// The texts of some facts.
pub open spec fn texts_of(xs: Seq<(FactId, &str)>) -> Seq<Seq<char>> {
    Seq::new(xs.len(), |i: int| xs[i].1@)
}

/// What the embedder is asked for: the texts in batches, or one empty text
/// when there are none, so that it still shows its dimension.
pub open spec fn requests(texts: Seq<Seq<char>>, size: int) -> Seq<Seq<Seq<char>>> {
    if texts.len() == 0 {
        seq![seq![Seq::empty()]]
    } else {
        Seq::new(
            batch_count(texts.len() as int, size) as nat,
            |k: int|
                texts.subrange(
                    batches(texts.len() as int, size)[k].0,
                    batches(texts.len() as int, size)[k].1,
                ),
        )
    }
}

/// One request, as text.
pub open spec fn request_view(xs: Seq<&str>) -> Seq<Seq<char>> {
    Seq::new(xs.len(), |i: int| xs[i]@)
}

pub open spec fn request_views(xs: Seq<Vec<&str>>) -> Seq<Seq<Seq<char>>> {
    Seq::new(xs.len(), |k: int| request_view(xs[k]@))
}

/// Requests put behind each other.
pub open spec fn joined(xs: Seq<Seq<Seq<char>>>) -> Seq<Seq<char>>
    decreases xs.len(),
{
    if xs.len() == 0 {
        Seq::empty()
    } else {
        joined(xs.drop_last()) + xs.last()
    }
}

/// The requests hold every text once, in order, and each holds at least one
/// text and no more than asked.
pub proof fn requests_hold_the_texts(texts: Seq<Seq<char>>, size: int)
    requires
        texts.len() > 0,
        size > 0,
    ensures
        joined(requests(texts, size)) == texts,
        forall|k: int|
            0 <= k < requests(texts, size).len() ==> 1 <= (#[trigger] requests(
                texts,
                size,
            )[k]).len() <= size,
{
    let n = texts.len() as int;
    let all = requests(texts, size);
    lemma_count(n, size, 0);
    lemma_joined(texts, size, all.len() as int);
    assert(all.take(all.len() as int) =~= all);
    batches_cover_the_texts(n, size, batch_count(n, size) - 1);
    assert(texts.take(n) =~= texts);
    assert forall|k: int| 0 <= k < all.len() implies 1 <= (#[trigger] all[k]).len() <= size by {
        batches_cover_the_texts(n, size, k);
        lemma_batches(n, size, k);
        assert(0 <= k * size) by (nonlinear_arith)
            requires
                0 <= k,
                0 < size,
        ;
    }
}

proof fn lemma_joined(texts: Seq<Seq<char>>, size: int, k: int)
    requires
        texts.len() > 0,
        size > 0,
        0 < k <= batch_count(texts.len() as int, size),
    ensures
        joined(requests(texts, size).take(k)) == texts.take(
            batches(texts.len() as int, size)[k - 1].1,
        ),
    decreases k,
{
    let n = texts.len() as int;
    let all = requests(texts, size);
    let (a, b) = batches(n, size)[k - 1];
    assert(all.take(k).drop_last() =~= all.take(k - 1));
    assert(all.take(k).last() == texts.subrange(a, b));
    lemma_batches(n, size, k - 1);
    batches_cover_the_texts(n, size, k - 1);
    if k == 1 {
        assert(all.take(0) =~= Seq::empty());
        assert(joined(all.take(0)) =~= Seq::empty());
        assert(joined(all.take(1)) =~= texts.take(b));
    } else {
        lemma_joined(texts, size, k - 1);
        batches_cover_the_texts(n, size, k - 2);
        assert(0 <= (k - 1) * size) by (nonlinear_arith)
            requires
                0 <= k - 1,
                0 < size,
        ;
        assert(joined(all.take(k)) =~= texts.take(b));
    }
}

/// The texts to hand the embedder, one request after the other.
pub fn embed_requests<'a>(texts: &Vec<(FactId, &'a str)>, batch_size: usize) -> (r: Result<
    Vec<Vec<&'a str>>,
    Error,
>)
    ensures
        match r {
            Ok(out) => batch_size > 0 && request_views(out@) == requests(
                texts_of(texts@),
                batch_size as int,
            ),
            Err(e) => batch_size == 0 && e == Error::Invalid("reembed batch size must be nonzero"),
        },
{
    let ranges: Vec<(usize, usize)> = match embed_batches(texts.len(), batch_size) {
        Ok(ranges) => ranges,
        Err(e) => {
            return Err(e);
        },
    };
    let mut out: Vec<Vec<&'a str>> = Vec::new();
    if texts.len() == 0 {
        let mut probe: Vec<&'a str> = Vec::new();
        probe.push("");
        out.push(probe);
        proof {
            reveal_strlit("");
            assert(""@ =~= Seq::<char>::empty());
            assert(request_view(out@[0]@) =~= seq![Seq::<char>::empty()]);
            assert(request_views(out@) =~= requests(texts_of(texts@), batch_size as int));
        }
        return Ok(out);
    }
    let ghost n = texts@.len() as int;
    let ghost size = batch_size as int;
    let ghost all = requests(texts_of(texts@), size);
    let mut k: usize = 0;
    proof {
        lemma_count(n, size, 0);
        assert(ranges@.len() == range_views(ranges@).len());
        assert(request_views(out@) =~= all.take(0));
    }
    while k < ranges.len()
        invariant
            k <= ranges@.len(),
            n == texts@.len(),
            n > 0,
            size == batch_size,
            size > 0,
            all == requests(texts_of(texts@), size),
            range_views(ranges@) == batches(n, size),
            ranges@.len() == batch_count(n, size),
            out@.len() == k,
            request_views(out@) == all.take(k as int),
        decreases ranges@.len() - k,
    {
        let (a, b) = ranges[k];
        proof {
            assert(range_views(ranges@)[k as int] == (a as int, b as int));
            lemma_batches(n, size, k as int);
            batches_cover_the_texts(n, size, k as int);
        }
        let ghost before = request_views(out@);
        let one: Vec<&'a str> = texts_between(texts, a, b);
        out.push(one);
        proof {
            assert(request_view(one@) =~= all[k as int]);
            assert(request_views(out@) =~= before.push(all[k as int]));
            assert(all.take(k + 1) =~= all.take(k as int).push(all[k as int]));
        }
        k = k + 1;
    }
    assert(all.take(k as int) =~= all);
    Ok(out)
}

fn texts_between<'a>(texts: &Vec<(FactId, &'a str)>, a: usize, b: usize) -> (r: Vec<&'a str>)
    requires
        a <= b <= texts@.len(),
    ensures
        request_view(r@) == texts_of(texts@).subrange(a as int, b as int),
{
    let ghost want = texts_of(texts@).subrange(a as int, b as int);
    let mut out: Vec<&'a str> = Vec::new();
    let mut i: usize = a;
    while i < b
        invariant
            a <= i <= b <= texts@.len(),
            out@.len() == i - a,
            forall|k: int| 0 <= k < i - a ==> (#[trigger] out@[k])@ == texts@[a + k].1@,
        decreases b - i,
    {
        out.push(texts[i].1);
        i = i + 1;
    }
    assert(request_view(out@) =~= want);
    out
}

proof fn lemma_count(n: int, size: int, k: int)
    by (nonlinear_arith)
    requires
        0 <= n,
        0 < size,
        0 <= k,
    ensures
        0 <= (n + size - 1) / size,
        k * size < n <==> k < (n + size - 1) / size,
{
}

/// The vectors of one batch appended, the first `m` of them.
pub open spec fn slots_pushed(
    dim: int,
    max_bytes: int,
    pool: Seq<u8>,
    records: Seq<FactRecord>,
    answers: Seq<(F32Bits, Seq<u8>)>,
    m: nat,
) -> Result<Seq<u8>, Error>
    decreases m,
{
    if m == 0 {
        Ok(pool)
    } else {
        match slots_pushed(dim, max_bytes, pool, records, answers, (m - 1) as nat) {
            Err(e) => Err(e),
            Ok(p) => match vecpool::slot_pushed(
                dim,
                max_bytes,
                p,
                records[m - 1].id.0,
                answers[m - 1].0,
                answers[m - 1].1,
            ) {
                Err(e) => Err(e),
                Ok((q, _)) => Ok(q),
            },
        }
    }
}

/// One batch answered: as many vectors as it has texts, appended in order.
pub open spec fn batch_flushed(
    dim: int,
    max_bytes: int,
    pool: Seq<u8>,
    records: Seq<FactRecord>,
    answers: Seq<(F32Bits, Seq<u8>)>,
) -> Result<Seq<u8>, Error> {
    if answers.len() != records.len() {
        Err(Error::Invalid("embedder returned the wrong number of vectors"))
    } else {
        slots_pushed(dim, max_bytes, pool, records, answers, records.len())
    }
}

pub open spec fn answer_views(xs: Seq<Quantized>) -> Seq<(F32Bits, Seq<u8>)> {
    xs.map_values(|x: Quantized| (x.0, x.1@))
}

/// The answer to batch `k`; none where it is missing.
pub open spec fn answer_at(answers: Seq<Vec<Quantized>>, k: int) -> Seq<(F32Bits, Seq<u8>)> {
    if k < answers.len() {
        answer_views(answers[k]@)
    } else {
        Seq::empty()
    }
}

/// The text of some record is not valid.
pub open spec fn unreadable(texts: Seq<Seq<u8>>, records: Seq<FactRecord>) -> bool {
    exists|i: int|
        0 <= i < records.len() && !valid_utf8(texts[(#[trigger] records[i]).text.0 as int])
}

/// The pool after the first `k` batches; a batch with an unreadable text is
/// never asked for.
pub open spec fn batches_flushed(
    texts: Seq<Seq<u8>>,
    dim: int,
    max_bytes: int,
    records: Seq<FactRecord>,
    size: int,
    answers: Seq<Vec<Quantized>>,
    k: nat,
) -> Result<Seq<u8>, Error>
    decreases k,
{
    if k == 0 {
        Ok(Seq::empty())
    } else {
        match batches_flushed(texts, dim, max_bytes, records, size, answers, (k - 1) as nat) {
            Err(e) => Err(e),
            Ok(pool) => {
                let (a, b) = batches(records.len() as int, size)[k - 1];
                let batch = records.subrange(a, b);
                if unreadable(texts, batch) {
                    Err(Error::Corrupt("reembed: fact text is not UTF-8"))
                } else {
                    batch_flushed(dim, max_bytes, pool, batch, answer_at(answers, k - 1))
                }
            },
        }
    }
}

/// What a probe of the embedder says when there is nothing to embed.
pub open spec fn probe_fault(dim: int, answers: Seq<Vec<Quantized>>) -> Option<Error> {
    let probe = answer_at(answers, 0);
    if probe.len() != 1 {
        Some(Error::Invalid("embedder returned the wrong number of probe vectors"))
    } else if probe[0].1.len() != dim {
        Some(Error::DimMismatch { got: probe[0].1.len() as usize, want: dim as usize })
    } else {
        None
    }
}

/// The configuration of the new image, or why there can be none.
pub open spec fn target_config(cfg: Config, dim: usize, size: usize) -> Result<Config, Error> {
    if dim == 0 {
        Err(Error::Invalid("reembed target dimension must be nonzero"))
    } else if size == 0 {
        Err(Error::Invalid("reembed batch size must be nonzero"))
    } else {
        match config::validated(Config { dim, ..cfg }) {
            Err(e) => Err(e),
            Ok(()) => Ok(Config { dim, ..cfg }),
        }
    }
}

/// The state on the new vector axis.
pub open spec fn reembedded(
    s: State,
    dim: usize,
    space: Seq<char>,
    size: usize,
    answers: Seq<Vec<Quantized>>,
) -> Result<State, Error> {
    match target_config(s.cfg, dim, size) {
        Err(e) => Err(e),
        Ok(cfg) => {
            let records = retained(s.facts);
            match batches_flushed(
                s.texts,
                dim as int,
                state::cap(s),
                records,
                size as int,
                answers,
                batch_count(records.len() as int, size as int) as nat,
            ) {
                Err(e) => Err(e),
                Ok(vecs) => if records.len() == 0 && probe_fault(dim as int, answers) is Some {
                    Err(probe_fault(dim as int, answers)->0)
                } else {
                    Ok(
                        State {
                            cfg,
                            facts: facts_reembedded(s.facts),
                            vecs,
                            graph: hnsw::no_nodes(cfg.hnsw_m as int, cfg.hnsw_m0 as int),
                            space: Some(space),
                            ..s
                        },
                    )
                },
            }
        },
    }
}

/// The state on the new vector axis with the graph that the host linked.
pub open spec fn relinked(
    s: State,
    dim: usize,
    space: Seq<char>,
    size: usize,
    answers: Seq<Vec<Quantized>>,
    ceiling: int,
    g: hnsw::HnswState,
) -> Result<State, Error> {
    match reembedded(s, dim, space, size, answers) {
        Err(e) => Err(e),
        Ok(t) => graph::adopted(t, ceiling, g),
    }
}

proof fn lemma_pushed_err(
    dim: int,
    max_bytes: int,
    pool: Seq<u8>,
    records: Seq<FactRecord>,
    answers: Seq<(F32Bits, Seq<u8>)>,
    m: nat,
    n: nat,
)
    requires
        m <= n,
        slots_pushed(dim, max_bytes, pool, records, answers, m) is Err,
    ensures
        slots_pushed(dim, max_bytes, pool, records, answers, n) == slots_pushed(
            dim,
            max_bytes,
            pool,
            records,
            answers,
            m,
        ),
    decreases n,
{
    if m < n {
        lemma_pushed_err(dim, max_bytes, pool, records, answers, m, (n - 1) as nat);
    }
}

proof fn lemma_flushed_err(
    texts: Seq<Seq<u8>>,
    dim: int,
    max_bytes: int,
    records: Seq<FactRecord>,
    size: int,
    answers: Seq<Vec<Quantized>>,
    k: nat,
    n: nat,
)
    requires
        k <= n,
        batches_flushed(texts, dim, max_bytes, records, size, answers, k) is Err,
    ensures
        batches_flushed(texts, dim, max_bytes, records, size, answers, n) == batches_flushed(
            texts,
            dim,
            max_bytes,
            records,
            size,
            answers,
            k,
        ),
    decreases n,
{
    if k < n {
        lemma_flushed_err(texts, dim, max_bytes, records, size, answers, k, (n - 1) as nat);
    }
}

/// Appends the vectors of one batch.
fn flush_batch(
    pool: &mut VecPool,
    records: &Vec<FactRecord>,
    a: usize,
    b: usize,
    answers: &Vec<Quantized>,
) -> (r: Result<(), Error>)
    requires
        old(pool).wf(),
        old(pool).dimension() > 0,
        a <= b <= records@.len(),
    ensures
        final(pool).wf(),
        final(pool).dimension() == old(pool).dimension(),
        final(pool).ceiling() == old(pool).ceiling(),
        match r {
            Ok(()) => batch_flushed(
                old(pool).dimension(),
                old(pool).ceiling(),
                old(pool)@,
                records@.subrange(a as int, b as int),
                answer_views(answers@),
            ) == Ok::<_, Error>(final(pool)@),
            Err(e) => batch_flushed(
                old(pool).dimension(),
                old(pool).ceiling(),
                old(pool)@,
                records@.subrange(a as int, b as int),
                answer_views(answers@),
            ) == Err::<Seq<u8>, _>(e),
        },
{
    if answers.len() != b - a {
        return Err(Error::Invalid("embedder returned the wrong number of vectors"));
    }
    let ghost start = pool@;
    let ghost dim = pool.dimension();
    let ghost max = pool.ceiling();
    let ghost recs = records@.subrange(a as int, b as int);
    let ghost views = answer_views(answers@);
    let mut i: usize = 0;
    while i < answers.len()
        invariant
            i <= answers@.len(),
            a <= b <= records@.len(),
            answers@.len() == b - a,
            recs == records@.subrange(a as int, b as int),
            views == answer_views(answers@),
            pool.wf(),
            dim > 0,
            pool.dimension() == dim,
            pool.ceiling() == max,
            slots_pushed(dim, max, start, recs, views, i as nat) == Ok::<_, Error>(pool@),
            dim == old(pool).dimension(),
            max == old(pool).ceiling(),
            start == old(pool)@,
        decreases answers@.len() - i,
    {
        proof {
            assert(recs[i as int] == records@[a + i]);
            assert(views[i as int] == (answers@[i as int].0, answers@[i as int].1@));
        }
        if let Err(e) = pool.push(records[a + i].id, answers[i].0, answers[i].1.as_slice()) {
            proof {
                lemma_pushed_err(dim, max, start, recs, views, (i + 1) as nat, recs.len());
            }
            return Err(e);
        }
        i = i + 1;
    }
    Ok(())
}

impl Memory {
    /// The facts that are not forgotten, in id order.
    fn retained_facts(&self) -> (r: Vec<FactRecord>)
        requires
            self.sound(),
        ensures
            r@ == retained(self@.facts),
    {
        let ghost facts = self@.facts;
        let mut out: Vec<FactRecord> = Vec::new();
        let mut i: usize = 0;
        assert(facts.take(0) =~= Seq::empty());
        while i < self.facts.len()
            invariant
                i <= facts.len(),
                facts == self@.facts,
                out@ == retained(facts.take(i as int)),
            decreases facts.len() - i,
        {
            let f: FactRecord = self.facts.row(i);
            assert(facts.take(i + 1).drop_last() =~= facts.take(i as int));
            if !f.is_tombstone() {
                out.push(f);
            }
            i = i + 1;
        }
        assert(facts.take(i as int) =~= facts);
        out
    }

    /// The id and text of every retained fact, in id order: what the embedder
    /// is asked for. Forgotten facts are never sent; closed revisions are,
    /// because recall at an earlier instant must stay searchable.
    pub fn reembed_texts(&self) -> (r: Result<Vec<(FactId, &str)>, Error>)
        requires
            self.wf(),
        ensures
            ({
                let records = retained(self@.facts);
                let bad = exists|i: int|
                    0 <= i < records.len() && !valid_utf8(
                        self@.texts[(#[trigger] records[i]).text.0 as int],
                    );
                match r {
                    Ok(out) => !bad && out@.len() == records.len() && forall|i: int|
                        0 <= i < records.len() ==> (#[trigger] out@[i]).0 == records[i].id
                            && out@[i].1@ == decode_utf8(self@.texts[records[i].text.0 as int]),
                    Err(e) => bad && e == Error::Corrupt("reembed: fact text is not UTF-8"),
                }
            }),
    {
        let ghost s = self@;
        let records: Vec<FactRecord> = self.retained_facts();
        proof {
            lemma_retained_ok(s, s.facts);
        }
        let mut out: Vec<(FactId, &str)> = Vec::new();
        let mut i: usize = 0;
        while i < records.len()
            invariant
                i <= records@.len(),
                s == self@,
                self.sound(),
                records@ == retained(s.facts),
                forall|k: int|
                    0 <= k < records@.len() ==> (#[trigger] records@[k]).text.0 < s.texts.len(),
                out@.len() == i,
                forall|k: int|
                    0 <= k < i ==> valid_utf8(s.texts[(#[trigger] records@[k]).text.0 as int]),
                forall|k: int|
                    0 <= k < i ==> (#[trigger] out@[k]).0 == records@[k].id && out@[k].1@
                        == decode_utf8(s.texts[records@[k].text.0 as int]),
            decreases records@.len() - i,
        {
            let f: FactRecord = records[i];
            match str_from_utf8(self.texts.get(f.text)) {
                Some(text) => {
                    out.push((f.id, text));
                },
                None => {
                    assert(!valid_utf8(s.texts[records@[i as int].text.0 as int]));
                    return Err(Error::Corrupt("reembed: fact text is not UTF-8"));
                },
            }
            i = i + 1;
        }
        Ok(out)
    }

    /// The records on the new vector axis.
    fn reembed_facts(&self) -> (r: Table<FactRecord>)
        requires
            self.wf(),
        ensures
            r.wf(),
            r@ == facts_reembedded(self@.facts),
            r.ceiling() == self@.cfg.max_bytes,
    {
        let ghost facts = self@.facts;
        let ghost all = facts_reembedded(facts);
        let max: usize = self.cfg.max_bytes;
        let mut out: Table<FactRecord> = Table::new(max);
        let mut slot: usize = 0;
        let mut i: usize = 0;
        proof {
            self.facts.lemma_wf();
            lemma_few(facts, self@.next_fact);
            assert(facts.take(0) =~= Seq::empty());
            assert(all.take(0) =~= Seq::empty());
        }
        while i < self.facts.len()
            invariant
                i <= facts.len(),
                facts == self@.facts,
                all == facts_reembedded(facts),
                table::ascending(facts),
                facts.len() * 48 <= max,
                facts.len() <= u32::MAX,
                out.wf(),
                out.ceiling() == max,
                out@ == all.take(i as int),
                slot == retained(facts.take(i as int)).len(),
                slot <= i,
            decreases facts.len() - i,
        {
            let f: FactRecord = self.facts.row(i);
            let ghost before = out@;
            let g: FactRecord = if f.is_tombstone() {
                FactRecord { flags: f.flags & !fact_flags::HAS_VECTOR, vector: NONE_U32, ..f }
            } else {
                FactRecord { flags: f.flags | fact_flags::HAS_VECTOR, vector: slot as u32, ..f }
            };
            proof {
                out.lemma_wf();
                assert(g == all[i as int]);
                assert(facts.take(i + 1).drop_last() =~= facts.take(i as int));
                assert forall|k: int| 0 <= k < before.len() implies (#[trigger] before[k]).key()
                    < g.key() by {
                    assert(before[k] == all[k]);
                    assert(facts[k].key() < facts[i as int].key());
                }
                table::lemma_append(before, g);
            }
            let _ = out.insert(g);
            if !f.is_tombstone() {
                slot = slot + 1;
            }
            i = i + 1;
            assert(out@ =~= all.take(i as int));
        }
        assert(all.take(i as int) =~= all);
        out
    }

    /// Whether the text of some record of a batch is not valid.
    fn batch_unreadable(&self, records: &Vec<FactRecord>, a: usize, b: usize) -> (r: bool)
        requires
            self.sound(),
            a <= b <= records@.len(),
            forall|k: int|
                0 <= k < records@.len() ==> (#[trigger] records@[k]).text.0 < self@.texts.len(),
        ensures
            r == unreadable(self@.texts, records@.subrange(a as int, b as int)),
    {
        let ghost batch = records@.subrange(a as int, b as int);
        let mut i: usize = a;
        while i < b
            invariant
                a <= i <= b <= records@.len(),
                self.sound(),
                batch == records@.subrange(a as int, b as int),
                forall|k: int|
                    0 <= k < records@.len() ==> (#[trigger] records@[k]).text.0
                        < self@.texts.len(),
                forall|k: int|
                    0 <= k < i - a ==> valid_utf8(
                        self@.texts[(#[trigger] batch[k]).text.0 as int],
                    ),
            decreases b - i,
        {
            let f: FactRecord = records[i];
            assert(batch[i - a] == f);
            if str_from_utf8(self.texts.get(f.text)).is_none() {
                return true;
            }
            i = i + 1;
        }
        false
    }

    /// The configuration of a new image with vectors of another dimension.
    pub fn reembed_config(&self, dim: usize, batch_size: usize) -> (r: Result<Config, Error>)
        ensures
            r == target_config(self@.cfg, dim, batch_size),
    {
        if dim == 0 {
            return Err(Error::Invalid("reembed target dimension must be nonzero"));
        }
        if batch_size == 0 {
            return Err(Error::Invalid("reembed batch size must be nonzero"));
        }
        let cfg: Config = Config { dim, ..self.cfg };
        match cfg.validate() {
            Ok(()) => Ok(cfg),
            Err(e) => Err(e),
        }
    }

    /// The new vector pool, from the embedder's answers.
    fn reembed_pool(
        &self,
        records: &Vec<FactRecord>,
        dim: usize,
        batch_size: usize,
        answers: &Vec<Vec<Quantized>>,
    ) -> (r: Result<VecPool, Error>)
        requires
            self.wf(),
            0 < dim <= 4096,
            batch_size > 0,
            forall|k: int|
                0 <= k < records@.len() ==> (#[trigger] records@[k]).text.0 < self@.texts.len(),
        ensures
            match r {
                Ok(p) => p.wf() && p.dimension() == dim && p.ceiling() == self@.cfg.max_bytes
                    && batches_flushed(
                    self@.texts,
                    dim as int,
                    state::cap(self@),
                    records@,
                    batch_size as int,
                    answers@,
                    batch_count(records@.len() as int, batch_size as int) as nat,
                ) == Ok::<_, Error>(p@),
                Err(e) => batches_flushed(
                    self@.texts,
                    dim as int,
                    state::cap(self@),
                    records@,
                    batch_size as int,
                    answers@,
                    batch_count(records@.len() as int, batch_size as int) as nat,
                ) == Err::<Seq<u8>, _>(e),
            },
    {
        let max: usize = self.cfg.max_bytes;
        let mut pool: VecPool = VecPool::new(dim, max);
        let n: usize = records.len();
        let ranges: Vec<(usize, usize)> = embed_batches(n, batch_size)?;
        let ghost all = batches(n as int, batch_size as int);
        let none: Vec<Quantized> = Vec::new();
        let mut k: usize = 0;
        proof {
            assert(answer_views(none@) =~= Seq::empty());
            lemma_count(n as int, batch_size as int, 0);
            assert(ranges@.len() == range_views(ranges@).len());
        }
        while k < ranges.len()
            invariant
                k <= ranges@.len(),
                n == records@.len(),
                self.sound(),
                forall|k: int|
                    0 <= k < records@.len() ==> (#[trigger] records@[k]).text.0
                        < self@.texts.len(),
                batch_size > 0,
                dim > 0,
                all == batches(n as int, batch_size as int),
                range_views(ranges@) == all,
                ranges@.len() == batch_count(n as int, batch_size as int),
                answer_views(none@) == Seq::<(F32Bits, Seq<u8>)>::empty(),
                pool.wf(),
                pool.dimension() == dim,
                pool.ceiling() == max,
                max == state::cap(self@),
                batches_flushed(
                    self@.texts,
                    dim as int,
                    max as int,
                    records@,
                    batch_size as int,
                    answers@,
                    k as nat,
                ) == Ok::<_, Error>(pool@),
            decreases ranges@.len() - k,
        {
            let (a, b) = ranges[k];
            proof {
                assert(range_views(ranges@)[k as int] == (a as int, b as int));
                lemma_batches(n as int, batch_size as int, k as int);
            }
            let r: Result<(), Error> = if self.batch_unreadable(records, a, b) {
                Err(Error::Corrupt("reembed: fact text is not UTF-8"))
            } else if k < answers.len() {
                flush_batch(&mut pool, records, a, b, &answers[k])
            } else {
                flush_batch(&mut pool, records, a, b, &none)
            };
            if let Err(e) = r {
                proof {
                    lemma_flushed_err(
                        self@.texts,
                        dim as int,
                        max as int,
                        records@,
                        batch_size as int,
                        answers@,
                        (k + 1) as nat,
                        ranges@.len(),
                    );
                }
                return Err(e);
            }
            k = k + 1;
        }
        Ok(pool)
    }

    /// Streams a snapshot with a completely new vector pool and vector-space
    /// identity into `sink`, which must be empty. The engine itself does not
    /// change.
    ///
    /// `answers` holds what the embedder returned for each of the
    /// [`embed_requests`] of [`Memory::reembed_texts`].
    pub fn write_reembedded_snapshot<K: SnapshotSink>(
        &self,
        created_at: u64,
        target_dim: usize,
        target_space: &str,
        batch_size: usize,
        answers: &Vec<Vec<Quantized>>,
        sink: &mut K,
    ) -> (r: Result<ReembedReport, Error>)
        requires
            self.wf(),
            old(sink).written().len() == 0,
            reembedded(self@, target_dim, target_space@, batch_size, answers@) matches Ok(t)
                ==> persist::image_fits(t),
        ensures
            match (reembedded(self@, target_dim, target_space@, batch_size, answers@), r) {
                (Err(e), _) => r == Err::<ReembedReport, _>(e),
                (Ok(t), Err(e)) => old(sink).reports().contains(e),
                (Ok(t), Ok(report)) => {
                    &&& final(sink).written() == persist::snapshot_image(t, created_at)
                    &&& crate::memory::space_view(report.previous_space) == self@.space
                    &&& report.new_space@ == target_space@
                    &&& report.previous_dim == self@.cfg.dim
                    &&& report.new_dim == target_dim
                    &&& report.embedded == retained(self@.facts).len()
                    &&& report.tombstones_skipped == self@.facts.len() - retained(
                        self@.facts,
                    ).len()
                    &&& report.vector_bytes == t.vecs.len()
                    &&& report.hnsw_indexed == 0
                },
            },
    {
        let graph: HnswGraph = self.empty_graph();
        proof {
            if let Ok(t) = reembedded(self@, target_dim, target_space@, batch_size, answers@) {
                maintain::lemma_empty_graph(t);
                reveal(state::graph_ok);
                assert((State { graph: graph@, ..t }) =~= t);
            }
        }
        self.write_linked_snapshot(
            created_at,
            target_dim,
            target_space,
            batch_size,
            answers,
            &graph,
            sink,
        )
    }

    /// The new vector pool, from the embedder's answers: what the host links
    /// the graph of [`Memory::write_linked_snapshot`] over.
    pub fn reembed_vectors(
        &self,
        target_dim: usize,
        batch_size: usize,
        answers: &Vec<Vec<Quantized>>,
    ) -> (r: Result<VecPool, Error>)
        requires
            self.wf(),
        ensures
            forall|space: Seq<char>|
                match #[trigger] reembedded(self@, target_dim, space, batch_size, answers@) {
                    Err(e) => r == Err::<VecPool, _>(e),
                    Ok(t) => r is Ok && r->Ok_0.wf() && r->Ok_0@ == t.vecs
                        && r->Ok_0.dimension() == target_dim,
                },
    {
        if let Err(e) = self.reembed_config(target_dim, batch_size) {
            return Err(e);
        }
        let records: Vec<FactRecord> = self.retained_facts();
        proof {
            lemma_retained_ok(self@, self@.facts);
        }
        let vecs: VecPool = self.reembed_pool(&records, target_dim, batch_size, answers)?;
        if records.len() == 0 {
            if answers.len() == 0 || answers[0].len() != 1 {
                return Err(
                    Error::Invalid("embedder returned the wrong number of probe vectors"),
                );
            }
            if answers[0][0].1.len() != target_dim {
                return Err(Error::DimMismatch { got: answers[0][0].1.len(), want: target_dim });
            }
        }
        Ok(vecs)
    }

    /// Streams a snapshot with a completely new vector pool, the graph that the
    /// host linked over it, and a new vector-space identity into `sink`, which
    /// must be empty. The engine itself does not change.
    pub fn write_linked_snapshot<K: SnapshotSink>(
        &self,
        created_at: u64,
        target_dim: usize,
        target_space: &str,
        batch_size: usize,
        answers: &Vec<Vec<Quantized>>,
        graph: &HnswGraph,
        sink: &mut K,
    ) -> (r: Result<ReembedReport, Error>)
        requires
            self.wf(),
            graph.wf(),
            old(sink).written().len() == 0,
            relinked(
                self@,
                target_dim,
                target_space@,
                batch_size,
                answers@,
                graph.ceiling(),
                graph@,
            ) matches Ok(t) ==> persist::image_fits(t),
        ensures
            match (
                relinked(
                    self@,
                    target_dim,
                    target_space@,
                    batch_size,
                    answers@,
                    graph.ceiling(),
                    graph@,
                ),
                r,
            ) {
                (Err(e), _) => r == Err::<ReembedReport, _>(e),
                (Ok(t), Err(e)) => old(sink).reports().contains(e),
                (Ok(t), Ok(report)) => {
                    &&& final(sink).written() == persist::snapshot_image(t, created_at)
                    &&& crate::memory::space_view(report.previous_space) == self@.space
                    &&& report.new_space@ == target_space@
                    &&& report.previous_dim == self@.cfg.dim
                    &&& report.new_dim == target_dim
                    &&& report.embedded == retained(self@.facts).len()
                    &&& report.tombstones_skipped == self@.facts.len() - retained(
                        self@.facts,
                    ).len()
                    &&& report.vector_bytes == t.vecs.len()
                    &&& report.hnsw_indexed == graph@.indexed
                },
            },
    {
        let vecs: VecPool = self.reembed_vectors(target_dim, batch_size, answers)?;
        let cfg: Config = self.reembed_config(target_dim, batch_size)?;
        if !graph.is_for(cfg.hnsw_m, cfg.hnsw_m0, cfg.max_bytes) {
            return Err(Error::ConfigMismatch("hnsw degree caps"));
        }
        if let Err(e) = graph.validate(&vecs) {
            return Err(e);
        }
        let embedded: usize = self.retained_facts().len();
        let facts: Table<FactRecord> = self.reembed_facts();
        let mut sections: Sections<'_> = self.sections();
        sections.cfg = cfg;
        sections.facts = &facts;
        sections.vecs = &vecs;
        sections.hnsw = graph;
        sections.space = Some(target_space);
        sections.write_to(created_at, sink)?;
        proof {
            lemma_retained_len(self@.facts);
        }
        Ok(
            ReembedReport {
                previous_space: match self.vector_space() {
                    Some(name) => Some(name.to_string()),
                    None => None,
                },
                new_space: target_space.to_string(),
                previous_dim: self.cfg.dim,
                new_dim: target_dim,
                embedded,
                tombstones_skipped: self.facts.len() - embedded,
                vector_bytes: vecs.pool_bytes() as u64,
                hnsw_indexed: graph.indexed(),
            },
        )
    }
}

proof fn lemma_retained_len(facts: Seq<FactRecord>)
    ensures
        retained(facts).len() <= facts.len(),
    decreases facts.len(),
{
    if facts.len() > 0 {
        lemma_retained_len(facts.drop_last());
    }
}

proof fn lemma_retained_ok(s: State, facts: Seq<FactRecord>)
    requires
        forall|i: int| 0 <= i < facts.len() ==> state::fact_ok(s, #[trigger] facts[i]),
    ensures
        forall|i: int|
            0 <= i < retained(facts).len() ==> (#[trigger] retained(facts)[i]).text.0
                < s.texts.len(),
    decreases facts.len(),
{
    if facts.len() > 0 {
        let init = facts.drop_last();
        assert forall|i: int| 0 <= i < init.len() implies state::fact_ok(
            s,
            #[trigger] init[i],
        ) by {
            assert(init[i] == facts[i]);
        }
        lemma_retained_ok(s, init);
        assert(state::fact_ok(s, facts[facts.len() - 1]));
        let all = retained(facts);
        assert forall|i: int| 0 <= i < all.len() implies (#[trigger] all[i]).text.0
            < s.texts.len() by {
            if i < retained(init).len() {
                assert(all[i] == retained(init)[i]);
            }
        }
    }
}

/// Facts have distinct ids, so there are few of them.
proof fn lemma_few(facts: Seq<FactRecord>, next: u32)
    requires
        table::ascending(facts),
        forall|i: int| 0 <= i < facts.len() ==> (#[trigger] facts[i]).id.0 < next,
    ensures
        facts.len() <= next,
{
    lemma_spread(facts, facts.len() as int);
    if facts.len() > 0 {
        assert(facts[facts.len() - 1].id.0 < next);
    }
}

proof fn lemma_spread(facts: Seq<FactRecord>, n: int)
    requires
        table::ascending(facts),
        0 <= n <= facts.len(),
    ensures
        forall|i: int| 0 <= i < n ==> i <= (#[trigger] facts[i]).id.0,
    decreases n,
{
    if n > 1 {
        lemma_spread(facts, n - 1);
        assert(facts[n - 2].key() < facts[n - 1].key());
        assert(facts[n - 2].id.0 < facts[n - 1].id.0);
    }
}

proof fn lemma_pushed_size(
    dim: int,
    max_bytes: int,
    pool: Seq<u8>,
    records: Seq<FactRecord>,
    answers: Seq<(F32Bits, Seq<u8>)>,
    m: nat,
)
    requires
        slots_pushed(dim, max_bytes, pool, records, answers, m) is Ok,
    ensures
        slots_pushed(dim, max_bytes, pool, records, answers, m)->Ok_0.len() == pool.len() + m
            * vecpool::stride_of(dim),
    decreases m,
{
    let s = vecpool::stride_of(dim);
    if m > 0 {
        lemma_pushed_size(dim, max_bytes, pool, records, answers, (m - 1) as nat);
        vecpool::slot_round_trip(records[m - 1].id.0, answers[m - 1].0, answers[m - 1].1);
        assert((m - 1) * s + s == m * s) by (nonlinear_arith);
    } else {
        assert(m * s == 0) by (nonlinear_arith)
            requires
                m == 0,
        ;
    }
}

proof fn lemma_flushed_size(
    texts: Seq<Seq<u8>>,
    dim: int,
    max_bytes: int,
    records: Seq<FactRecord>,
    size: int,
    answers: Seq<Vec<Quantized>>,
    k: nat,
)
    requires
        size > 0,
        0 < k <= batch_count(records.len() as int, size),
        batches_flushed(texts, dim, max_bytes, records, size, answers, k) is Ok,
    ensures
        batches_flushed(texts, dim, max_bytes, records, size, answers, k)->Ok_0.len() == batches(
            records.len() as int,
            size,
        )[k - 1].1 * vecpool::stride_of(dim),
    decreases k,
{
    let n = records.len() as int;
    let s = vecpool::stride_of(dim);
    let (a, b) = batches(n, size)[k - 1];
    let batch = records.subrange(a, b);
    let pool = batches_flushed(texts, dim, max_bytes, records, size, answers, (k - 1) as nat)->Ok_0;
    batches_cover_the_texts(n, size, k - 1);
    lemma_batches(n, size, k - 1);
    assert(0 <= (k - 1) * size) by (nonlinear_arith)
        requires
            0 < k,
            0 < size,
    ;
    lemma_pushed_size(dim, max_bytes, pool, batch, answer_at(answers, k - 1), batch.len());
    if k > 1 {
        lemma_flushed_size(texts, dim, max_bytes, records, size, answers, (k - 1) as nat);
        batches_cover_the_texts(n, size, k - 2);
    }
    assert(a * s + (b - a) * s == b * s) by (nonlinear_arith);
}

/// The new pool holds one slot for each retained fact.
pub proof fn a_new_pool_holds_every_fact(
    s: State,
    dim: usize,
    space: Seq<char>,
    size: usize,
    answers: Seq<Vec<Quantized>>,
)
    requires
        reembedded(s, dim, space, size, answers) is Ok,
    ensures
        reembedded(s, dim, space, size, answers)->Ok_0.vecs.len() == retained(s.facts).len()
            * vecpool::stride_of(dim as int),
{
    let records = retained(s.facts);
    let n = records.len() as int;
    let count = batch_count(n, size as int);
    lemma_count(n, size as int, 0);
    if n > 0 {
        batches_cover_the_texts(n, size as int, count - 1);
        lemma_flushed_size(
            s.texts,
            dim as int,
            state::cap(s),
            records,
            size as int,
            answers,
            count as nat,
        );
    } else {
        assert(n * vecpool::stride_of(dim as int) == 0) by (nonlinear_arith)
            requires
                n == 0,
        ;
    }
}

} // verus!
