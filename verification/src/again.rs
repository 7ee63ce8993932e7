//! The same request, decided twice: the second time it is answered the same, for
//! less.
use vstd::prelude::*;

use crate::agree;
use crate::answer::{Readout, Weighed};
use crate::decide;
use crate::decide::{Decided, Engine};
use crate::kv::{Backend, Job, Kv};
use crate::repeat;
use crate::run;
use crate::run::Point;
use crate::schema::{DecideRequest, Mode};
use crate::weight;

verus! {

/// Every step of a way is a wave that went through, or one that was refused.
proof fn lemma_way_len(jobs: Seq<Job>, shared: bool, first: u64, way: Seq<Point>)
    requires
        way.len() > 0,
        run::led(jobs, shared, first, way),
    ensures
        way.len() - 1 == (way.last().st.waves - way[0].st.waves) + (way.last().kv.ledger.refused@
            - way[0].kv.ledger.refused@),
    decreases way.len(),
{
    if way.len() > 1 {
        let before = way.drop_last();
        let (a, b) = (way[way.len() - 2], way.last());
        lemma_way_len(jobs, shared, first, before);
        assert(before.last() == a);
        reveal(run::step);
    }
}

/// The tokens of jobs are those of the prompts they were made of.
proof fn lemma_total(jobs: Seq<Job>, toks: Seq<Vec<i32>>)
    requires
        jobs.len() == toks.len(),
        forall|i: int| 0 <= i < jobs.len() ==> (#[trigger] jobs[i]).toks@ == toks[i]@,
    ensures
        weight::prompt_tokens(jobs) == decide::total(toks),
    decreases jobs.len(),
{
    if jobs.len() > 0 {
        let (a, b) = (jobs.drop_last(), toks.drop_last());
        assert forall|i: int| 0 <= i < a.len() implies (#[trigger] a[i]).toks@ == b[i]@ by {
            assert(jobs[i].toks@ == toks[i]@);
        }
        lemma_total(a, b);
        assert(jobs[jobs.len() - 1].toks@ == toks[toks.len() - 1]@);
    }
}

/// Prompt `j` of a request strictly extends the resident head.
pub open spec fn extends_head(kv: &Kv, d: Decided, j: int) -> bool {
    &&& 0 <= j < d.toks@.len()
    &&& kv.head@.len() > 0
    &&& kv.head@.len() < d.toks@[j]@.len()
    &&& kv.head@.is_prefix_of(d.toks@[j]@)
}

/// A request over fresh memory decodes fewer tokens than its prompts have, for the
/// head is resident.
pub proof fn law_first_request<B: Backend>(o: Engine<B>, f: Engine<B>, a: DecideRequest, d: Decided, j: int)
    requires
        run::fresh(&o.kv),
        decide::decided(o, f, a, d),
        extends_head(&o.kv, d, j),
    ensures
        d.stats.decoded < decide::total(d.toks@),
{
    let shared = a.mode == Mode::Shared;
    let (k, jobs, way) = choose|k: Kv, jobs: Seq<Job>, way: Seq<Point>| #[trigger]
        decide::ran_from(&o.kv, &k, &f.kv, jobs, shared, d.stats, way) && decide::jobs_from(jobs, d.toks@, d.keeps@);
    assert(run::fresh(&k));
    assert(run::is_head_entry(k.entries@[0], o.kv.head@));
    assert(run::resident(k.entries@, o.kv.head@));
    assert(j < d.toks.len());
    assert(d.toks@.len() == d.toks.len());
    repeat::law_head_is_not_decoded(&k, &f.kv, jobs, shared, d.stats, way, j, o.kv.head@);
    lemma_total(jobs, d.toks@);
}

/// The same request, decided again by an engine that had decided nothing before it,
/// gets the same answers for fewer decoded tokens, and hits the cache. The first
/// time it went in however many waves and tries, and left a span cached beside the
/// head, one that is no prompt itself; the second time it went in one wave, and
/// the backend refused nothing.
pub proof fn law_second_request<B: Backend>(
    o: Engine<B>,
    f: Engine<B>,
    g: Engine<B>,
    a: DecideRequest,
    b: DecideRequest,
    d: Decided,
    e: Decided,
    i: int,
    rs: Seq<Readout>,
    ts: Seq<Readout>,
    ws: Seq<Weighed>,
    vs: Seq<Weighed>,
)
    requires
        run::fresh(&o.kv),
        f.frame == o.frame,
        agree::alike(&o.llm, &f.llm),
        agree::same_ask(a, b),
        a.mode == Mode::Shared,
        b.mode == Mode::Shared,
        decide::decided(o, f, a, d),
        decide::decided(f, g, b, e),
        e.stats.waves == 1,
        g.kv.ledger.refused@ == f.kv.ledger.refused@,
        f.kv.tick < u64::MAX,
        0 <= i < f.kv.entries@.len(),
        !f.kv.entries@[i].pinned,
        forall|k: int| 0 <= k < d.toks@.len() ==> (#[trigger] d.toks@[k])@ != f.kv.entries@[i].toks@,
        rs.len() == d.toks@.len(),
        ts.len() == e.toks@.len(),
        ws.len() == d.compiled.asks.folded@.len(),
        vs.len() == e.compiled.asks.folded@.len(),
        forall|j: int| 0 <= j < rs.len() ==> #[trigger] agree::reads_alike(&f.kv, &g.kv, d.compiled, e.compiled, rs, ts, j),
        forall|k: int|
            0 <= k < ws.len() ==> #[trigger] agree::weighs_alike(
                d.compiled,
                e.compiled,
                agree::items_answered(d.compiled, rs),
                agree::items_answered(e.compiled, ts),
                ws,
                vs,
                k,
            ),
    ensures
        agree::answered(d.compiled, a.expand, rs, ws) == agree::answered(e.compiled, b.expand, ts, vs),
        e.stats.decoded < d.stats.decoded,
        e.stats.hits > 0,
        decide::total(e.toks@) == decide::total(d.toks@),
{
    agree::law_same_answers(&o.llm, &f.llm, o.frame, a, b, &f.kv, &g.kv, d, e, true, true, rs, ts, ws, vs);
    let (k, jobs, there) = choose|k: Kv, jobs: Seq<Job>, way: Seq<Point>| #[trigger]
        decide::ran_from(&o.kv, &k, &f.kv, jobs, true, d.stats, way) && decide::jobs_from(jobs, d.toks@, d.keeps@);
    let (l, twins, back) = choose|k: Kv, jobs: Seq<Job>, way: Seq<Point>| #[trigger]
        decide::ran_from(&f.kv, &k, &g.kv, jobs, true, e.stats, way) && decide::jobs_from(jobs, e.toks@, e.keeps@);
    assert(run::fresh(&k));
    assert(l == f.kv);
    lemma_way_len(twins, true, run::next_tick(f.kv.tick), back);
    assert(back.len() == 2);
    assert(jobs.len() <= usize::MAX) by {
        assert(d.toks@.len() == d.toks.len());
    }
    assert forall|j: int| 0 <= j < d.toks@.len() implies (#[trigger] d.toks@[j])@ == e.toks@[j]@ by {
        assert(j < d.toks.len());
        agree::law_modes_agree(&o.llm, &f.llm, o.frame, a, b, &f.kv, &g.kv, d, e, true, true, j as usize);
        assert(g.kv.ledger.seen@.dom().contains(j as usize));
    }
    assert(d.toks@.len() == e.toks@.len()) by {
        agree::law_same_messages(a, b, d.compiled, e.compiled);
    }
    assert(repeat::same_prompts(jobs, twins)) by {
        assert forall|j: int| 0 <= j < jobs.len() implies (#[trigger] jobs[j]).toks@ == twins[j].toks@ by {
            assert(d.toks@[j]@ == e.toks@[j]@);
        }
    }
    assert(repeat::spoken(jobs)) by {
        assert forall|j: int| 0 <= j < jobs.len() implies (#[trigger] jobs[j]).toks@.len() > 0 by {
            assert(d.toks@[j]@.len() >= 1);
        }
    }
    assert forall|j: int| 0 <= j < jobs.len() implies (#[trigger] jobs[j]).toks@ != f.kv.entries@[i].toks@ by {
        assert(d.toks@[j]@ != f.kv.entries@[i].toks@);
    }
    repeat::law_second_run_decodes_less(&k, &f.kv, &g.kv, jobs, twins, d.stats, e.stats, there, back, i);
    lemma_total(jobs, d.toks@);
    assert forall|j: int| 0 <= j < jobs.len() implies (#[trigger] jobs[j]).toks@ == e.toks@[j]@ by {
        assert(d.toks@[j]@ == e.toks@[j]@);
    }
    lemma_total(jobs, e.toks@);
}

} // verus!
