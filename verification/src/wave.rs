//! One wave: which pending jobs it takes on, room for them in the cache, and
//! the trie their prompts decode as.
use vstd::prelude::*;

use crate::calls;
use crate::kv;
use crate::kv::{Backend, Entry, Job, Kv, KV_SLACK};
use crate::plan;
use crate::plan::{Item, Plan, Span};
use crate::prefix;

verus! {

/// The jobs that items stand for.
pub open spec fn jobs_of(items: Seq<Item>) -> Seq<usize> {
    items.map_values(|x: Item| x.job)
}

/// The pending jobs as items in trie order.
pub open spec fn lined_up(items: Seq<Item>, jobs: Seq<Job>, pending: Seq<usize>, es: Seq<Entry>, shared: bool) -> bool {
    &&& items.len() == pending.len()
    &&& plan::in_order(items)
    &&& forall|k: int| 0 <= k < items.len() ==> kv::item_ok(jobs, es, shared, #[trigger] items[k])
    &&& jobs_of(items).no_duplicates()
    &&& forall|j: usize| #[trigger] jobs_of(items).contains(j) <==> pending.contains(j)
}

/// Sorting keeps the jobs.
proof fn lemma_sorted_jobs(a: Seq<Item>, b: Seq<Item>)
    requires
        a.to_multiset() == b.to_multiset(),
        jobs_of(a).no_duplicates(),
    ensures
        jobs_of(b).no_duplicates(),
        forall|j: usize| #[trigger] jobs_of(b).contains(j) <==> jobs_of(a).contains(j),
        forall|k: int| 0 <= k < b.len() ==> a.contains(#[trigger] b[k]),
{
    a.to_multiset_ensures();
    b.to_multiset_ensures();
    assert forall|k: int| 0 <= k < b.len() implies a.contains(#[trigger] b[k]) by {
        assert(b.contains(b[k]));
        assert(b.to_multiset().count(b[k]) > 0);
    }
    assert forall|k: int| 0 <= k < a.len() implies b.contains(#[trigger] a[k]) by {
        assert(a.contains(a[k]));
        assert(a.to_multiset().count(a[k]) > 0);
    }
    assert(a.no_duplicates()) by {
        assert forall|i: int, j: int| 0 <= i < a.len() && 0 <= j < a.len() && i != j implies a[i] != a[j] by {
            assert(jobs_of(a)[i] != jobs_of(a)[j]);
        }
    }
    a.lemma_multiset_has_no_duplicates();
    b.lemma_multiset_has_no_duplicates_conv();
    assert forall|i: int, j: int| 0 <= i < b.len() && 0 <= j < b.len() && i != j implies jobs_of(b)[i] != jobs_of(b)[j] by {
        assert(a.contains(b[i]) && a.contains(b[j]));
        let x = choose|x: int| 0 <= x < a.len() && a[x] == b[i];
        let y = choose|y: int| 0 <= y < a.len() && a[y] == b[j];
        assert(jobs_of(a)[x] == b[i].job && jobs_of(a)[y] == b[j].job);
    }
    assert forall|j: usize| #[trigger] jobs_of(b).contains(j) <==> jobs_of(a).contains(j) by {
        if jobs_of(b).contains(j) {
            let k = choose|k: int| 0 <= k < jobs_of(b).len() && jobs_of(b)[k] == j;
            assert(a.contains(b[k]));
            let x = choose|x: int| 0 <= x < a.len() && a[x] == b[k];
            assert(jobs_of(a)[x] == j);
        }
        if jobs_of(a).contains(j) {
            let k = choose|k: int| 0 <= k < jobs_of(a).len() && jobs_of(a)[k] == j;
            assert(b.contains(a[k]));
            let x = choose|x: int| 0 <= x < b.len() && b[x] == a[k];
            assert(jobs_of(b)[x] == j);
        }
    }
}

/// The tokens an item forks off.
pub open spec fn stem(x: Item) -> Seq<i32> {
    x.toks@.take(x.blen as int)
}

/// Items with one base fork off the same tokens.
pub open spec fn one_stem(items: Seq<Item>) -> bool {
    forall|i: int, j: int|
        0 <= i < items.len() && 0 <= j < items.len() && (#[trigger] items[i]).base == (#[trigger] items[j]).base
            ==> stem(items[i]) == stem(items[j])
}

/// Items over one cache strictly extend their bases, and items with one base
/// agree on its length.
pub proof fn lemma_bases(items: Seq<Item>, jobs: Seq<Job>, es: Seq<Entry>, n_seq: int, shared: bool)
    requires
        kv::entries_ok(es, n_seq),
        forall|k: int| 0 <= k < items.len() ==> kv::item_ok(jobs, es, shared, #[trigger] items[k]),
        forall|k: int| 0 <= k < items.len() ==> (#[trigger] items[k]).toks@.len() > 0,
    ensures
        plan::forked(items),
        plan::same_base(items),
        one_stem(items),
        forall|k: int|
            0 <= k < items.len() ==> (#[trigger] items[k]).base == -1 && items[k].blen == 0 || items[k].base >= 0
                && exists|i: int|
                0 <= i < es.len() && (#[trigger] es[i]).seq == items[k].base && es[i].toks@ == items[k].toks@.take(
                    items[k].blen as int,
                ),
{
    assert forall|k: int| 0 <= k < items.len() implies (#[trigger] items[k]).blen < items[k].toks@.len() && (
    items[k].base == -1 && items[k].blen == 0 || items[k].base >= 0 && exists|i: int|
        0 <= i < es.len() && (#[trigger] es[i]).seq == items[k].base && es[i].toks@ == items[k].toks@.take(
            items[k].blen as int,
        )) by {
        let x = items[k];
        assert(kv::item_ok(jobs, es, shared, x));
        kv::lemma_base(es, n_seq, x.toks@, shared, x.base, x.blen as int);
    }
    assert forall|i: int, j: int|
        0 <= i < items.len() && 0 <= j < items.len() && (#[trigger] items[i]).base == (#[trigger] items[j]).base implies items[i].blen
        == items[j].blen && stem(items[i]) == stem(items[j]) by {
        let (x, y) = (items[i], items[j]);
        if x.base >= 0 {
            let a = choose|a: int|
                0 <= a < es.len() && (#[trigger] es[a]).seq == x.base && es[a].toks@ == x.toks@.take(x.blen as int);
            let b = choose|b: int|
                0 <= b < es.len() && (#[trigger] es[b]).seq == y.base && es[b].toks@ == y.toks@.take(y.blen as int);
            if a < b {
                assert(es[a].seq != es[b].seq);
            } else if b < a {
                assert(es[b].seq != es[a].seq);
            }
            assert(es[a].toks@.len() == x.blen);
            assert(es[b].toks@.len() == y.blen);
        } else {
            assert(stem(x) =~= stem(y));
        }
    }
}

/// The pending jobs in trie order: grouped by base, then lexicographic, so
/// that shared prefixes and duplicates end up adjacent.
pub fn line_up<'a>(kv: &Kv, jobs: &Vec<Job<'a>>, pending: &Vec<usize>, shared: bool) -> (r: Vec<Item<'a>>)
    requires
        kv.wf(),
        forall|i: int|
            0 <= i < pending@.len() ==> #[trigger] pending@[i] < jobs@.len() && jobs@[pending@[i] as int].toks@.len() > 0,
        pending@.no_duplicates(),
    ensures
        lined_up(r@, jobs@, pending@, kv.entries@, shared),
        plan::forked(r@),
        plan::same_base(r@),
        one_stem(r@),
{
    let mut raw: Vec<Item<'a>> = Vec::new();
    let mut i: usize = 0;
    while i < pending.len()
        invariant
            i <= pending@.len(),
            raw@.len() == i,
            forall|k: int|
                0 <= k < pending@.len() ==> #[trigger] pending@[k] < jobs@.len() && jobs@[pending@[k] as int].toks@.len() > 0,
            forall|k: int|
                0 <= k < i ==> kv::item_ok(jobs@, kv.entries@, shared, #[trigger] raw@[k]) && raw@[k].job == pending@[k],
        decreases pending@.len() - i,
    {
        let j: usize = pending[i];
        let (base, blen): (i32, usize) = kv.base(jobs[j].toks, shared);
        raw.push(Item { job: j, toks: jobs[j].toks, keep: jobs[j].keep, base, blen });
        i += 1;
    }
    let r = plan::sort(raw.as_slice());
    proof {
        assert(jobs_of(raw@) =~= pending@);
        lemma_sorted_jobs(raw@, r@);
        assert forall|k: int| 0 <= k < r@.len() implies kv::item_ok(jobs@, kv.entries@, shared, #[trigger] r@[k])
            && r@[k].toks@.len() > 0 by {
            assert(raw@.contains(r@[k]));
            let x = choose|x: int| 0 <= x < raw@.len() && raw@[x] == r@[k];
            assert(raw@[x].job == pending@[x]);
        }
        lemma_bases(r@, jobs@, kv.entries@, kv.n_seq as int, shared);
    }
    r
}

/// Sequences a wave may use: all but those of entries some pending job forks
/// from, which stay put while the wave forms.
pub open spec fn seq_cap(kv: &Kv, items: Seq<Item>) -> int {
    kv.n_seq - 1 - kv::tally(kv.entries@, kv::on_any(kv::bases(items, items.len() as int)))
}

/// Cells a wave may write, next to the head and those entries.
pub open spec fn cell_cap(kv: &Kv, items: Seq<Item>) -> int {
    let left = kv.n_ctx - kv::cell_sum(kv.entries@, kv::head_or_on(kv::bases(items, items.len() as int))) - KV_SLACK;
    if left < 0 {
        0
    } else {
        left
    }
}

/// Unpinned entries on a sequence of `ws`, and the cells those and the head
/// keep alive.
fn held(kv: &Kv, ws: &Vec<i32>) -> (r: (usize, u128))
    ensures
        r.0 == kv::tally(kv.entries@, kv::on_any(ws@)),
        r.1 == kv::cell_sum(kv.entries@, kv::head_or_on(ws@)),
        r.1 <= usize::MAX * usize::MAX,
{
    let (mut n, mut c): (usize, u128) = (0, 0);
    let mut i: usize = 0;
    let ghost (f, g) = (kv::on_any(ws@), kv::head_or_on(ws@));
    while i < kv.entries.len()
        invariant
            i <= kv.entries@.len(),
            f == kv::on_any(ws@),
            g == kv::head_or_on(ws@),
            n == kv::tally(kv.entries@.take(i as int), f),
            n <= i,
            c == kv::cell_sum(kv.entries@.take(i as int), g),
            c <= i * usize::MAX,
        decreases kv.entries@.len() - i,
    {
        let e: &Entry = &kv.entries[i];
        let on: bool = kv::contains(ws, e.seq);
        proof {
            assert(kv.entries@.take(i + 1).drop_last() =~= kv.entries@.take(i as int));
            assert(i * usize::MAX + usize::MAX == (i + 1) * usize::MAX) by (nonlinear_arith);
            assert((i + 1) * usize::MAX <= u128::MAX) by (nonlinear_arith)
                requires
                    0 <= i + 1 <= usize::MAX,
            ;
        }
        if !e.pinned && on {
            n += 1;
        }
        if e.pinned || on {
            c = c + e.cells as u128;
        }
        i += 1;
    }
    proof {
        assert(kv.entries@.take(i as int) =~= kv.entries@);
        assert(i * usize::MAX <= usize::MAX * usize::MAX) by (nonlinear_arith);
    }
    (n, c)
}

/// The wave over `items`: the greedy cut under what the cache leaves free.
pub fn plan_wave<'a>(kv: &Kv, items: &Vec<Item<'a>>, shared: bool, limit: usize) -> (p: Plan<'a>)
    requires
        kv.wf(),
        plan::in_order(items@),
        plan::forked(items@),
        plan::same_base(items@),
        limit > 0,
    ensures
        seq_cap(kv, items@) >= 1,
        exists|n0: int, n1: int, lo: int, hi: int| #[trigger]
            plan::is_cut(
                items@,
                shared,
                limit as int,
                seq_cap(kv, items@),
                cell_cap(kv, items@),
                p,
                n0,
                n1,
                lo,
                hi,
            ),
        p.n <= items@.len(),
        p.n <= limit,
        items@.len() > 0 ==> p.n > 0,
        p.works == plan::works(items@, shared, p.n as int),
        p.works <= seq_cap(kv, items@),
        p.cells == plan::cells(items@, shared, p.n as int),
        plan::spans_ok(items@, shared, p.n as int, p.spans@),
{
    let wanted: Vec<i32> = kv::bases_of(items, items.len());
    let (n, c): (usize, u128) = held(kv, &wanted);
    proof {
        kv::lemma_tally_le(kv.entries@, kv::on_any(wanted@), kv::any_entry());
        assert(usize::MAX * usize::MAX + 32 <= u128::MAX) by (nonlinear_arith)
            requires
                usize::MAX <= u64::MAX,
        ;
    }
    let seqs: usize = kv.n_seq - 1 - n;
    let need: u128 = c + KV_SLACK as u128;
    let cells: usize = if need >= kv.n_ctx as u128 {
        0
    } else {
        kv.n_ctx - need as usize
    };
    proof {
        assert(seqs == seq_cap(kv, items@));
        assert(cells == cell_cap(kv, items@));
    }
    plan::cut(items, shared, limit, seqs, cells)
}

/// The wave's sequences and cells fit next to the cache.
pub open spec fn fits(kv: &Kv, works: int, spans: int, cells: int) -> bool {
    room_for(kv.n_seq as int, kv.n_ctx as int, works, spans, cells)(kv.entries@)
}

/// Caches that leave room for so many sequences and cells.
pub open spec fn room_for(n_seq: int, n_ctx: int, works: int, spans: int, cells: int) -> spec_fn(Seq<Entry>) -> bool {
    |es: Seq<Entry>|
        {
            &&& n_seq - 1 - kv::tally(es, kv::any_entry()) >= works + spans
            &&& kv::cell_sum(es, kv::any_entry()) + cells + KV_SLACK <= n_ctx
        }
}

/// What is left of the cache of `o` once there is room for the wave `p`: first
/// entries go that no pending job needs, then those that later waves wanted,
/// never the wave's own bases.
pub open spec fn roomed(o: &Kv, items: Seq<Item>, p: Plan) -> Seq<Entry> {
    let done = room_for(
        o.n_seq as int,
        o.n_ctx as int,
        p.works as int,
        p.spans@.len() as int,
        p.cells as int,
    );
    let wanted = kv::bases(items, items.len() as int);
    let mine = kv::bases(items, p.n as int);
    kv::evicted_until(kv::evicted_until(o.entries@, wanted, false, done), mine, false, done)
}

/// The spans that the wave `p` caches: those planned, or none where the
/// sequences do not suffice.
pub open spec fn kept_spans<'a>(o: &Kv, items: Seq<Item<'a>>, p: Plan<'a>) -> Seq<Span<'a>> {
    if o.n_seq - 1 - kv::tally(roomed(o, items, p), kv::any_entry()) >= p.works + p.spans@.len() {
        p.spans@
    } else {
        Seq::empty()
    }
}

fn fits_now(kv: &Kv, works: usize, spans: usize, cells: u128) -> (r: bool)
    requires
        kv.wf(),
    ensures
        r == fits(kv, works as int, spans as int, cells as int),
{
    let free: Vec<i32> = kv.free_seqs();
    proof {
        kv::lemma_free_count(kv.entries@, kv.n_seq as int, free@);
    }
    if (free.len() as u128) < works as u128 + spans as u128 {
        return false;
    }
    let c: u128 = kv.cells();
    let n_ctx: u128 = kv.n_ctx as u128;
    c <= n_ctx && cells <= n_ctx - c && KV_SLACK as u128 <= n_ctx - c - cells
}

/// Make room for a wave: first evict entries no pending job needs, then ones
/// later waves wanted, never this wave's own bases. Spans are given up where
/// the sequences still don't suffice: they are an optimization, the answers
/// are not.
pub fn make_room<'a, B: Backend>(kv: &mut Kv, b: &mut B, items: &Vec<Item<'a>>, p: &mut Plan<'a>) -> (mine: Vec<i32>)
    requires
        old(kv).settled(),
        old(p).n <= items@.len(),
        1 <= old(p).works <= seq_cap(old(kv), items@),
    ensures
        mine@ == kv::bases(items@, old(p).n as int),
        calls::follows(old(b).told(), final(b).told(), old(kv).ledger.model(), final(kv).ledger.model()),
        final(kv).settled(),
        final(kv).same_run(old(kv)),
        final(kv).ledger.dirty@ == old(kv).ledger.dirty@,
        kv::among(final(kv).entries@, old(kv).entries@),
        kv::holding(final(kv).entries@, old(kv).entries@, mine@),
        final(p).n == old(p).n,
        final(p).works == old(p).works,
        final(p).cells == old(p).cells,
        final(kv).entries@ == roomed(old(kv), items@, *old(p)),
        final(p).spans@ == kept_spans(old(kv), items@, *old(p)),
        final(kv).n_seq - 1 - kv::tally(final(kv).entries@, kv::any_entry()) >= final(p).works + final(p).spans@.len(),
        fits(final(kv), final(p).works as int, old(p).spans@.len() as int, final(p).cells as int) || forall|j: int|
            0 <= j < final(kv).entries@.len() ==> !kv::evictable(#[trigger] final(kv).entries@[j], mine@, false),
        final(kv).entries@.len() <= old(kv).entries@.len(),
{
    let wanted: Vec<i32> = kv::bases_of(items, items.len());
    let mine: Vec<i32> = kv::bases_of(items, p.n);
    let ghost es0 = kv.entries@;
    let ghost (w0, m0) = (wanted@, mine@);
    proof {
        assert forall|i: int| 0 <= i < es0.len() implies es0.contains(#[trigger] es0[i]) by {}
        assert forall|x: i32| #[trigger] mine@.contains(x) implies wanted@.contains(x) by {
            let k = choose|k: int| 0 <= k < mine@.len() && mine@[k] == x;
            assert(wanted@[k] == x);
        }
    }
    let n: usize = p.spans.len();
    let ghost (t0, l0) = (b.told(), kv.ledger.model());
    proof {
        calls::lemma_idle(t0, l0);
    }
    let ghost done = room_for(kv.n_seq as int, kv.n_ctx as int, p.works as int, n as int, p.cells as int);
    let mut pass: usize = 0;
    while pass < 2
        invariant
            pass <= 2,
            done == room_for(
                old(kv).n_seq as int,
                old(kv).n_ctx as int,
                p.works as int,
                n as int,
                p.cells as int,
            ),
            kv.entries@ == if pass == 0 {
                es0
            } else if pass == 1 {
                kv::evicted_until(es0, w0, false, done)
            } else {
                kv::evicted_until(kv::evicted_until(es0, w0, false, done), m0, false, done)
            },
            n == p.spans@.len(),
            *p == *old(p),
            w0 == wanted@,
            m0 == mine@,
            es0 == old(kv).entries@,
            t0 == old(b).told(),
            l0 == old(kv).ledger.model(),
            forall|x: i32| #[trigger] mine@.contains(x) ==> wanted@.contains(x),
            calls::follows(t0, b.told(), l0, kv.ledger.model()),
            kv.settled(),
            kv.same_run(old(kv)),
            kv.ledger.dirty@ == old(kv).ledger.dirty@,
            kv::among(kv.entries@, es0),
            kv::holding(kv.entries@, es0, mine@),
            kv::tally(kv.entries@, kv::on_any(w0)) <= kv::tally(es0, kv::on_any(w0)),
            kv.entries@.len() <= es0.len(),
            pass == 2 ==> fits(kv, p.works as int, n as int, p.cells as int) || forall|j: int|
                0 <= j < kv.entries@.len() ==> !kv::evictable(#[trigger] kv.entries@[j], mine@, false),
        decreases 2 - pass,
    {
        let hold: &Vec<i32> = if pass == 0 {
            &wanted
        } else {
            &mine
        };
        let ghost start = kv.entries@;
        let mut more: bool = !fits_now(kv, p.works, n, p.cells);
        while more
            invariant
                done == room_for(
                    old(kv).n_seq as int,
                    old(kv).n_ctx as int,
                    p.works as int,
                    n as int,
                    p.cells as int,
                ),
                more ==> !done(kv.entries@),
                kv::evicted_until(kv.entries@, hold@, false, done) == kv::evicted_until(start, hold@, false, done),
                n == p.spans@.len(),
                *p == *old(p),
                w0 == wanted@,
                m0 == mine@,
                hold@ == (if pass == 0 { w0 } else { m0 }),
                forall|x: i32| #[trigger] mine@.contains(x) ==> wanted@.contains(x),
                calls::follows(t0, b.told(), l0, kv.ledger.model()),
                kv.settled(),
                kv.same_run(old(kv)),
                kv.ledger.dirty@ == old(kv).ledger.dirty@,
                kv::among(kv.entries@, es0),
                kv::holding(kv.entries@, es0, mine@),
                kv::tally(kv.entries@, kv::on_any(w0)) <= kv::tally(es0, kv::on_any(w0)),
                kv.entries@.len() <= es0.len(),
                !more ==> fits(kv, p.works as int, n as int, p.cells as int) || forall|j: int|
                    0 <= j < kv.entries@.len() ==> !kv::evictable(#[trigger] kv.entries@[j], hold@, false),
            decreases kv.entries@.len(), (if more { 1int } else { 0 }),
        {
            let ghost before = kv.entries@;
            let ghost (t1, l1) = (b.told(), kv.ledger.model());
            let evicted: bool = kv.evict(b, hold, false);
            proof {
                calls::lemma_on(t0, t1, b.told(), l0, l1, kv.ledger.model());
                lemma_among(kv.entries@, before, es0, hold@, mine@);
                assert(kv::evicted_until(before, hold@, false, done) == kv::evicted_until(kv.entries@, hold@, false, done));
            }
            more = evicted && !fits_now(kv, p.works, n, p.cells);
        }
        pass += 1;
    }
    let free: Vec<i32> = kv.free_seqs();
    proof {
        kv::lemma_free_count(kv.entries@, kv.n_seq as int, free@);
        if !fits(kv, p.works as int, n as int, p.cells as int) {
            kv::lemma_tally_le(kv.entries@, kv::any_entry(), kv::on_any(w0));
        }
        assert(free@.len() >= p.works);
    }
    if free.len() - p.works < n {
        p.spans = Vec::new();
    }
    mine
}

/// Dropping entries outside `hold` keeps those of `mine`, a part of it.
proof fn lemma_among(c: Seq<Entry>, b: Seq<Entry>, a: Seq<Entry>, hold: Seq<i32>, mine: Seq<i32>)
    requires
        kv::among(c, b),
        kv::among(b, a),
        kv::holding(c, b, hold),
        kv::holding(b, a, mine),
        forall|x: i32| #[trigger] mine.contains(x) ==> hold.contains(x),
    ensures
        kv::among(c, a),
        kv::holding(c, a, mine),
{
    assert forall|i: int| 0 <= i < c.len() implies a.contains(#[trigger] c[i]) by {
        assert(b.contains(c[i]));
        let j = choose|j: int| 0 <= j < b.len() && b[j] == c[i];
        assert(a.contains(b[j]));
    }
    assert forall|i: int| 0 <= i < a.len() && (a[i].pinned || mine.contains(a[i].seq)) implies c.contains(#[trigger] a[i]) by {
        assert(b.contains(a[i]));
        let j = choose|j: int| 0 <= j < b.len() && b[j] == a[i];
        assert(c.contains(b[j]));
    }
}

/// Sequences given out from the end of `free`: one per distinct prompt of the
/// first `n` items, then one per span.
pub open spec fn seated(
    items: Seq<Item>,
    shared: bool,
    n: int,
    spans: int,
    free: Seq<i32>,
    seq_of: Seq<i32>,
    span_seqs: Seq<i32>,
) -> bool {
    &&& 0 <= n <= items.len()
    &&& plan::works(items, shared, n) + spans <= free.len()
    &&& forall|i: int, j: int| 0 <= i < j < free.len() ==> #[trigger] free[i] < #[trigger] free[j]
    &&& seq_of.len() == n
    &&& span_seqs.len() == spans
    &&& forall|k: int| 0 <= k < n ==> #[trigger] seq_of[k] == free[free.len() - plan::works(items, shared, k + 1)]
    &&& forall|t: int|
        0 <= t < spans ==> #[trigger] span_seqs[t] == free[free.len() - plan::works(items, shared, n) - 1 - t]
}

pub proof fn lemma_works_monotone(items: Seq<Item>, shared: bool, a: int, b: int)
    requires
        0 <= a <= b,
    ensures
        plan::works(items, shared, a) <= plan::works(items, shared, b),
        plan::works(items, shared, a) == plan::works(items, shared, b) <==> forall|k: int|
            a <= k < b ==> #[trigger] plan::repeats(items, shared, k),
        a > 0 ==> plan::works(items, shared, a) > 0,
    decreases b,
{
    if b > a {
        lemma_works_monotone(items, shared, a, b - 1);
        if plan::works(items, shared, a) == plan::works(items, shared, b) {
            assert forall|k: int| a <= k < b implies #[trigger] plan::repeats(items, shared, k) by {}
        }
    } else if a > 0 {
        lemma_works_monotone(items, shared, a - 1, a - 1);
        if a == 1 {
            assert(!plan::repeats(items, shared, 0));
        }
    }
}

/// Give out sequences: one work sequence per distinct prompt, one per span.
pub fn seat(items: &Vec<Item>, shared: bool, n: usize, spans: usize, free: &Vec<i32>) -> (r: (Vec<i32>, Vec<i32>))
    requires
        n <= items@.len(),
        plan::works(items@, shared, n as int) + spans <= free@.len(),
        forall|i: int, j: int| 0 <= i < j < free@.len() ==> #[trigger] free@[i] < #[trigger] free@[j],
    ensures
        seated(items@, shared, n as int, spans as int, free@, r.0@, r.1@),
{
    let mut seq_of: Vec<i32> = Vec::new();
    let mut left: usize = free.len();
    let mut k: usize = 0;
    while k < n
        invariant
            k <= n <= items@.len(),
            seq_of@.len() == k,
            left == free@.len() - plan::works(items@, shared, k as int),
            plan::works(items@, shared, n as int) + spans <= free@.len(),
            forall|i: int|
                0 <= i < k ==> #[trigger] seq_of@[i] == free@[free@.len() - plan::works(items@, shared, i + 1)],
        decreases n - k,
    {
        proof {
            lemma_works_monotone(items@, shared, k + 1, n as int);
        }
        let dup: bool = shared && k > 0 && items[k - 1].base == items[k].base && prefix::same(
            items[k - 1].toks,
            items[k].toks,
        );
        if dup {
            let s: i32 = seq_of[k - 1];
            seq_of.push(s);
        } else {
            left -= 1;
            seq_of.push(free[left]);
        }
        k += 1;
    }
    let mut span_seqs: Vec<i32> = Vec::new();
    let mut t: usize = 0;
    while t < spans
        invariant
            t <= spans,
            span_seqs@.len() == t,
            left == free@.len() - plan::works(items@, shared, n as int) - t,
            plan::works(items@, shared, n as int) + spans <= free@.len(),
            forall|i: int|
                0 <= i < t ==> #[trigger] span_seqs@[i] == free@[free@.len() - plan::works(items@, shared, n as int) - 1
                    - i],
        decreases spans - t,
    {
        left -= 1;
        span_seqs.push(free[left]);
        t += 1;
    }
    (seq_of, span_seqs)
}

/// Work sequences are shared by repeated prompts only, and span sequences by
/// nobody.
pub proof fn lemma_seated(
    items: Seq<Item>,
    shared: bool,
    n: int,
    spans: int,
    free: Seq<i32>,
    seq_of: Seq<i32>,
    span_seqs: Seq<i32>,
)
    requires
        seated(items, shared, n, spans, free, seq_of, span_seqs),
        spans >= 0,
    ensures
        forall|i: int, j: int|
            0 <= i <= j < n ==> (#[trigger] seq_of[i] == #[trigger] seq_of[j] <==> plan::works(items, shared, i + 1)
                == plan::works(items, shared, j + 1)),
        forall|i: int, t: int| 0 <= i < n && 0 <= t < spans ==> #[trigger] seq_of[i] != #[trigger] span_seqs[t],
        forall|i: int, j: int| 0 <= i < j < spans ==> #[trigger] span_seqs[i] != #[trigger] span_seqs[j],
        forall|i: int| 0 <= i < n ==> free.contains(#[trigger] seq_of[i]),
        forall|t: int| 0 <= t < spans ==> free.contains(#[trigger] span_seqs[t]),
{
    assert forall|i: int| 0 <= i < n implies free.contains(#[trigger] seq_of[i]) && 0 <= free.len() - plan::works(
        items,
        shared,
        i + 1,
    ) < free.len() && plan::works(items, shared, i + 1) <= plan::works(items, shared, n) by {
        lemma_works_monotone(items, shared, i + 1, n);
    }
    assert forall|i: int, j: int| 0 <= i <= j < n implies (#[trigger] seq_of[i] == #[trigger] seq_of[j] <==> plan::works(
        items,
        shared,
        i + 1,
    ) == plan::works(items, shared, j + 1)) by {
        lemma_works_monotone(items, shared, i + 1, j + 1);
        lemma_works_monotone(items, shared, j + 1, n);
        let (a, b) = (free.len() - plan::works(items, shared, i + 1), free.len() - plan::works(items, shared, j + 1));
        if b < a {
            assert(free[b] < free[a]);
        }
    }
    assert forall|i: int, t: int| 0 <= i < n && 0 <= t < spans implies #[trigger] seq_of[i] != #[trigger] span_seqs[t] by {
        lemma_works_monotone(items, shared, i + 1, n);
        let (a, b) = (
            free.len() - plan::works(items, shared, i + 1),
            free.len() - plan::works(items, shared, n) - 1 - t,
        );
        assert(free[b] < free[a]);
    }
    assert forall|i: int, j: int| 0 <= i < j < spans implies #[trigger] span_seqs[i] != #[trigger] span_seqs[j] by {
        let w = free.len() - plan::works(items, shared, n) - 1;
        assert(free[w - j] < free[w - i]);
    }
    assert forall|t: int| 0 <= t < spans implies free.contains(#[trigger] span_seqs[t]) by {}
}

} // verus!
