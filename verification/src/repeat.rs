//! What is decoded when the same prompts are run again: text that an earlier run
//! left cached is not decoded once more.
use vstd::prelude::*;

use crate::kv;
use crate::kv::{Entry, Job, Kv};
use crate::plan;
use crate::plan::{Item, Plan};
use crate::run;
use crate::run::{Point, Stats};
use crate::wave;
use crate::weight;

verus! {

/// `q` is text of a prompt past all that the prompt can fork off.
pub open spec fn needed(es: Seq<Entry>, toks: Seq<i32>, q: Seq<i32>) -> bool {
    &&& 0 < q.len()
    &&& q.is_prefix_of(toks)
    &&& forall|i: int| 0 <= i < es.len() && kv::forkable(#[trigger] es[i], toks, true) ==> es[i].toks@.len() < q.len()
}

/// Of `t`, all was decoded but its first `l` tokens, which `es` holds as a whole.
spec fn covered_from(es: Seq<Entry>, d: Set<Seq<i32>>, t: Seq<i32>, l: int) -> bool {
    &&& 0 <= l <= t.len()
    &&& l == 0 || exists|i: int| 0 <= i < es.len() && (#[trigger] es[i]).toks@ == t.take(l)
    &&& forall|m: int| l < m <= t.len() ==> d.contains(#[trigger] t.take(m))
}

/// Of `t`, all was decoded but what `es` holds as a whole.
spec fn covered(es: Seq<Entry>, d: Set<Seq<i32>>, t: Seq<i32>) -> bool {
    exists|l: int| #[trigger] covered_from(es, d, t, l)
}

/// The prompt `t` was decoded, but for a base that `es` holds.
spec fn prompted(es: Seq<Entry>, d: Set<Seq<i32>>, t: Seq<i32>) -> bool {
    exists|l: int| #[trigger] covered_from(es, d, t, l) && l < t.len()
}

/// At a point of a run that started from the cache `es`, the texts `d` were decoded:
/// all of what is cached and of the prompts answered, but for what `es` held.
spec fn reached(es: Seq<Entry>, jobs: Seq<Job>, d: Set<Seq<i32>>, at: Point) -> bool {
    &&& d.finite()
    &&& d.len() <= at.st.decoded
    &&& forall|i: int| 0 <= i < at.kv.entries@.len() ==> covered(es, d, (#[trigger] at.kv.entries@[i]).toks@)
    &&& forall|j: usize| j < jobs.len() && !(#[trigger] at.left.contains(j)) ==> prompted(es, d, jobs[j as int].toks@)
}

/// What evicting leaves was there before.
proof fn lemma_evicted_among(es: Seq<Entry>, hold: Seq<i32>, temp: bool, done: spec_fn(Seq<Entry>) -> bool)
    ensures
        kv::among(kv::evicted_until(es, hold, temp, done), es),
    decreases es.len(),
{
    if done(es) || !kv::some_evictable(es, hold, temp) {
        assert forall|i: int| 0 <= i < es.len() implies es.contains(#[trigger] es[i]) by {}
    } else {
        let less = kv::evicted(es, hold, temp);
        lemma_evicted_among(less, hold, temp, done);
        lemma_evicted_one(es, hold, temp);
        lemma_among_trans(kv::evicted_until(less, hold, temp, done), less, es);
    }
}

proof fn lemma_evicted_one(es: Seq<Entry>, hold: Seq<i32>, temp: bool)
    requires
        kv::some_evictable(es, hold, temp),
    ensures
        kv::among(kv::evicted(es, hold, temp), es),
        kv::evicted(es, hold, temp).len() == es.len() - 1,
{
    let less = kv::evicted(es, hold, temp);
    let v = choose|v: int| #[trigger] kv::least_recent(es, hold, temp, v);
    assert forall|i: int| 0 <= i < less.len() implies es.contains(#[trigger] less[i]) by {
        assert(less[i] == if i == v {
            es[es.len() - 1]
        } else {
            es[i]
        });
    }
}

proof fn lemma_among_trans(a: Seq<Entry>, b: Seq<Entry>, c: Seq<Entry>)
    requires
        kv::among(a, b),
        kv::among(b, c),
    ensures
        kv::among(a, c),
{
    assert forall|i: int| 0 <= i < a.len() implies c.contains(#[trigger] a[i]) by {
        assert(b.contains(a[i]));
        let k = choose|k: int| 0 <= k < b.len() && b[k] == a[i];
        assert(c.contains(b[k]));
    }
}

/// Making room for a wave adds nothing to the cache.
proof fn lemma_roomed_among(o: &Kv, items: Seq<Item>, p: Plan)
    ensures
        kv::among(wave::roomed(o, items, p), o.entries@),
{
    let done = wave::room_for(
        o.n_seq as int,
        o.n_ctx as int,
        p.works as int,
        p.spans@.len() as int,
        p.cells as int,
    );
    let wanted = kv::bases(items, items.len() as int);
    let mine = kv::bases(items, p.n as int);
    let once = kv::evicted_until(o.entries@, wanted, false, done);
    lemma_evicted_among(o.entries@, wanted, false, done);
    lemma_evicted_among(once, mine, false, done);
    lemma_among_trans(kv::evicted_until(once, mine, false, done), once, o.entries@);
}

/// What is covered stays so when more was decoded.
proof fn lemma_more(es: Seq<Entry>, d: Set<Seq<i32>>, e: Set<Seq<i32>>, t: Seq<i32>)
    requires
        d.subset_of(e),
    ensures
        covered(es, d, t) ==> covered(es, e, t),
        prompted(es, d, t) ==> prompted(es, e, t),
{
    if covered(es, d, t) {
        let l = choose|l: int| #[trigger] covered_from(es, d, t, l);
        assert(covered_from(es, e, t, l));
    }
    if prompted(es, d, t) {
        let l = choose|l: int| #[trigger] covered_from(es, d, t, l) && l < t.len();
        assert(covered_from(es, e, t, l));
    }
}

/// The text past its base of each of the first `n` items.
spec fn texts(items: Seq<Item>, n: int) -> Set<Seq<i32>> {
    plan::pieces(items, n).map(|p: (i32, Seq<i32>)| p.1)
}

/// A prefix of an item's prompt past its base is among the texts.
proof fn lemma_text(items: Seq<Item>, n: int, k: int, m: int)
    requires
        0 <= k < n,
        items[k].blen < m <= items[k].toks@.len(),
    ensures
        texts(items, n).contains(items[k].toks@.take(m)),
{
    let p = (items[k].base, items[k].toks@.take(m));
    assert(plan::is_piece(items[k], p));
    assert(plan::pieces(items, n).contains(p));
}

/// The prefix `q` of an item's prompt, past the item's base, is covered once the
/// wave is decoded.
proof fn lemma_prefix_covered(
    es: Seq<Entry>,
    now: Seq<Entry>,
    d: Set<Seq<i32>>,
    e: Set<Seq<i32>>,
    x: Item,
    q: Seq<i32>,
)
    requires
        forall|i: int| 0 <= i < now.len() ==> covered(es, d, (#[trigger] now[i]).toks@),
        d.subset_of(e),
        x.blen < q.len(),
        q.is_prefix_of(x.toks@),
        forall|m: int| x.blen < m <= x.toks@.len() ==> e.contains(#[trigger] x.toks@.take(m)),
        x.blen == 0 || exists|i: int| 0 <= i < now.len() && (#[trigger] now[i]).toks@ == x.toks@.take(x.blen as int),
    ensures
        exists|l: int| #[trigger] covered_from(es, e, q, l) && l <= x.blen,
{
    let t = x.toks@;
    assert forall|m: int| 0 <= m <= q.len() implies q.take(m) == #[trigger] t.take(m) by {
        assert(q.take(m) =~= t.take(m));
    }
    if x.blen == 0 {
        assert forall|m: int| 0 < m <= q.len() implies e.contains(#[trigger] q.take(m)) by {
            assert(e.contains(t.take(m)));
        }
        assert(covered_from(es, e, q, 0));
    } else {
        let i = choose|i: int| 0 <= i < now.len() && (#[trigger] now[i]).toks@ == t.take(x.blen as int);
        let b = now[i].toks@;
        let l = choose|l: int| #[trigger] covered_from(es, d, b, l);
        assert forall|m: int| 0 <= m <= x.blen implies b.take(m) == #[trigger] t.take(m) by {
            assert(b.take(m) =~= t.take(m));
        }
        assert forall|m: int| l < m <= q.len() implies e.contains(#[trigger] q.take(m)) by {
            if m <= x.blen {
                assert(b.take(m) == t.take(m));
                assert(d.contains(b.take(m)));
            }
            assert(q.take(m) == t.take(m));
            assert(m > x.blen ==> e.contains(t.take(m)));
        }
        assert(b.take(l) == t.take(l));
        assert(q.take(l) == t.take(l));
        assert(covered_from(es, e, q, l));
    }
}

/// No prompt is empty.
pub open spec fn spoken(jobs: Seq<Job>) -> bool {
    forall|j: int| 0 <= j < jobs.len() ==> (#[trigger] jobs[j]).toks@.len() > 0
}

/// The items of a wave fork off the cache, and what they share is counted once.
proof fn lemma_items(a: &Kv, jobs: Seq<Job>, pending: Seq<usize>, limit: int, items: Seq<Item>, p: Plan)
    requires
        a.settled(),
        spoken(jobs),
        run::wave_of(a, jobs, pending, true, limit, items, p),
    ensures
        plan::in_order(items),
        plan::forked(items),
        plan::same_base(items),
        plan::pieces(items, p.n as int).finite(),
        plan::cells(items, true, p.n as int) == plan::pieces(items, p.n as int).len(),
        forall|k: int|
            0 <= k < items.len() ==> (#[trigger] items[k]).blen == 0 || exists|i: int|
                0 <= i < a.entries@.len() && (#[trigger] a.entries@[i]).toks@ == items[k].toks@.take(items[k].blen as int),
{
    assert forall|k: int| 0 <= k < items.len() implies (#[trigger] items[k]).toks@.len() > 0 by {
        assert(kv::item_ok(jobs, a.entries@, true, items[k]));
        assert(jobs[items[k].job as int].toks@.len() > 0);
    }
    wave::lemma_bases(items, jobs, a.entries@, a.n_seq as int, true);
    plan::law_decoded_once(items, p.n as int);
}

/// A wave that went through decoded the texts of its items, no more of them than it
/// counts.
proof fn lemma_went(
    es: Seq<Entry>,
    jobs: Seq<Job>,
    first: u64,
    d: Set<Seq<i32>>,
    a: Point,
    b: Point,
    items: Seq<Item>,
    p: Plan,
) -> (e: Set<Seq<i32>>)
    requires
        a.kv.settled(),
        spoken(jobs),
        reached(es, jobs, d, a),
        run::went_through(a.kv, b.kv, jobs, items, p, a.left, b.left, true, a.limit, first, a.st, b.st),
    ensures
        reached(es, jobs, e, b),
{
    let n = p.n as int;
    let now = a.kv.entries@;
    lemma_items(&a.kv, jobs, a.left, a.limit, items, p);
    let f = |p: (i32, Seq<i32>)| p.1;
    vstd::set_lib::lemma_map_size_bound(plan::pieces(items, n), texts(items, n), f);
    vstd::set_lib::lemma_len_union(d, texts(items, n));
    let e = d.union(texts(items, n));
    assert(d.subset_of(e));
    assert forall|k: int, m: int| 0 <= k < n && items[k].blen < m <= items[k].toks@.len() implies e.contains(
        #[trigger] items[k].toks@.take(m),
    ) by {
        lemma_text(items, n, k, m);
    }
    assert forall|i: int| 0 <= i < b.kv.entries@.len() implies covered(es, e, (#[trigger] b.kv.entries@[i]).toks@) by {
        lemma_entry_covered(es, d, e, a.kv, b.kv, jobs, a.left, a.limit, items, p, i);
    }
    assert forall|j: usize| j < jobs.len() && !(#[trigger] b.left.contains(j)) implies prompted(es, e, jobs[j as int].toks@) by {
        if a.left.contains(j) {
            let all = wave::jobs_of(items);
            assert(all.contains(j));
            let k = choose|k: int| 0 <= k < all.len() && all[k] == j;
            if k >= n {
                assert(b.left[k - n] == j);
            }
            let x = items[k];
            assert(kv::item_ok(jobs, now, true, x));
            let t = x.toks@;
            assert(t.subrange(0, t.len() as int) =~= t);
            assert(x.blen < t.len());
            lemma_prefix_covered(es, now, d, e, x, t);
            let l = choose|l: int| #[trigger] covered_from(es, e, t, l) && l <= x.blen;
            assert(covered_from(es, e, t, l) && l < t.len());
        } else {
            lemma_more(es, d, e, jobs[j as int].toks@);
        }
    }
    e
}

/// What a wave leaves cached was cached before, or decoded with it.
proof fn lemma_entry_covered(
    es: Seq<Entry>,
    d: Set<Seq<i32>>,
    e: Set<Seq<i32>>,
    a: Kv,
    b: Kv,
    jobs: Seq<Job>,
    pending: Seq<usize>,
    limit: int,
    items: Seq<Item>,
    p: Plan,
    i: int,
)
    requires
        plan::in_order(items),
        plan::same_base(items),
        run::wave_of(&a, jobs, pending, true, limit, items, p),
        run::cache_after(a, b, items, p),
        d.subset_of(e),
        forall|k: int| 0 <= k < a.entries@.len() ==> covered(es, d, (#[trigger] a.entries@[k]).toks@),
        forall|k: int, m: int|
            0 <= k < p.n && items[k].blen < m <= items[k].toks@.len() ==> e.contains(#[trigger] items[k].toks@.take(m)),
        forall|k: int|
            0 <= k < items.len() ==> (#[trigger] items[k]).blen == 0 || exists|i: int|
                0 <= i < a.entries@.len() && (#[trigger] a.entries@[i]).toks@ == items[k].toks@.take(items[k].blen as int),
        0 <= i < b.entries@.len(),
    ensures
        covered(es, e, b.entries@[i].toks@),
{
    if lemma_entry_source(a, b, items, p, i) {
        let k = choose|k: int| 0 <= k < a.entries@.len() && (#[trigger] a.entries@[k]).toks@ == b.entries@[i].toks@;
        lemma_more(es, d, e, a.entries@[k].toks@);
    } else {
        let t = choose|t: int| 0 <= t < p.spans@.len() && (#[trigger] p.spans@[t]).toks@ == b.entries@[i].toks@;
        let k = lemma_span_source(a, jobs, pending, limit, items, p, t);
        let x = items[k];
        assert forall|m: int| x.blen < m <= x.toks@.len() implies e.contains(#[trigger] x.toks@.take(m)) by {
            assert(e.contains(items[k].toks@.take(m)));
        }
        lemma_prefix_covered(es, a.entries@, d, e, x, p.spans@[t].toks@);
    }
}

/// An entry that a wave leaves holds what one held before, or else a span of it.
proof fn lemma_entry_source(a: Kv, b: Kv, items: Seq<Item>, p: Plan, i: int) -> (was: bool)
    requires
        run::cache_after(a, b, items, p),
        0 <= i < b.entries@.len(),
    ensures
        if was {
            exists|k: int| 0 <= k < a.entries@.len() && (#[trigger] a.entries@[k]).toks@ == b.entries@[i].toks@
        } else {
            exists|t: int| 0 <= t < p.spans@.len() && (#[trigger] p.spans@[t]).toks@ == b.entries@[i].toks@
        },
{
    reveal(run::cache_after);
    let kept = wave::roomed(&a, items, p);
    let spans = wave::kept_spans(&a, items, p);
    let mine = kv::bases(items, p.n as int);
    let seqs = choose|seqs: Seq<i32>| #[trigger] run::recached(kept, b.entries@, spans, seqs, mine, b.tick);
    let n = kept.len() as int;
    if i < n {
        assert(b.entries@.take(n)[i] == b.entries@[i]);
        lemma_roomed_among(&a, items, p);
        assert(a.entries@.contains(kept[i]));
        let k = choose|k: int| 0 <= k < a.entries@.len() && a.entries@[k] == kept[i];
        assert(a.entries@[k].toks@ == b.entries@[i].toks@);
    } else {
        assert(run::is_entry_of(b.entries@[n + (i - n)], spans[i - n], seqs[i - n], b.tick));
        assert(p.spans@[i - n].toks@ == b.entries@[i].toks@);
    }
    i < n
}

/// A span of a wave is a prefix of one of its items.
proof fn lemma_span_source(a: Kv, jobs: Seq<Job>, pending: Seq<usize>, limit: int, items: Seq<Item>, p: Plan, t: int) -> (k: int)
    requires
        plan::in_order(items),
        plan::same_base(items),
        run::wave_of(&a, jobs, pending, true, limit, items, p),
        0 <= t < p.spans@.len(),
    ensures
        0 <= k < p.n,
        plan::cut_from(items[k], p.spans@[t]),
        p.spans@[t].blen < p.spans@[t].toks@.len(),
{
    let (s, c) = (wave::seq_cap(&a, items), wave::cell_cap(&a, items));
    let (n0, n1, lo, hi) = choose|n0: int, n1: int, lo: int, hi: int| #[trigger]
        plan::is_cut(items, true, limit, s, c, p, n0, n1, lo, hi);
    plan::lemma_cut_spans(items, true, limit, s, c, p, n0, n1, lo, hi, t);
    choose|k: int| 0 <= k < p.n && plan::cut_from(#[trigger] items[k], p.spans@[t])
}

/// The texts decoded by the time a run has come to the end of `way`.
proof fn lemma_reached(o: &Kv, jobs: Seq<Job>, first: u64, way: Seq<Point>) -> (d: Set<Seq<i32>>)
    requires
        spoken(jobs),
        way.len() > 0,
        run::led(jobs, true, first, way),
        way[0].kv.settled(),
        way[0].kv.entries@ == o.entries@,
        way[0].left == Seq::new(jobs.len(), |i: int| i as usize),
    ensures
        reached(o.entries@, jobs, d, way.last()),
        way.last().kv.settled(),
    decreases way.len(),
{
    let es = o.entries@;
    if way.len() == 1 {
        let d = Set::<Seq<i32>>::empty();
        assert forall|i: int| 0 <= i < es.len() implies covered(es, d, (#[trigger] es[i]).toks@) by {
            let t = es[i].toks@;
            assert(t.take(t.len() as int) =~= t);
            assert(covered_from(es, d, t, t.len() as int));
        }
        assert forall|j: usize| j < jobs.len() implies #[trigger] way[0].left.contains(j) by {
            assert(way[0].left[j as int] == j);
        }
        d
    } else {
        let before = way.drop_last();
        let (a, b) = (way[way.len() - 2], way.last());
        let d = lemma_reached(o, jobs, first, before);
        assert(before.last() == a);
        reveal(run::step);
        if run::waved(a.kv, b.kv, jobs, a.left, b.left, true, a.limit, first, a.st, b.st) {
            let (items, p) = choose|items: Seq<Item>, p: Plan| #[trigger]
                run::went_through(a.kv, b.kv, jobs, items, p, a.left, b.left, true, a.limit, first, a.st, b.st);
            lemma_went(es, jobs, first, d, a, b, items, p)
        } else {
            let (items, p) = choose|items: Seq<Item>, p: Plan| #[trigger]
                run::turned_down(a.kv, b.kv, jobs, items, p, a.left, true, a.limit, true) && !run::hopeless(a.kv, items, p);
            let kept = wave::roomed(&a.kv, items, p);
            let mine = kv::bases(items, p.n as int);
            lemma_roomed_among(&a.kv, items, p);
            if kv::some_evictable(kept, mine, false) {
                lemma_evicted_one(kept, mine, false);
                lemma_among_trans(b.kv.entries@, kept, a.kv.entries@);
            }
            assert forall|i: int| 0 <= i < b.kv.entries@.len() implies covered(es, d, (#[trigger] b.kv.entries@[i]).toks@) by {
                assert(a.kv.entries@.contains(b.kv.entries@[i]));
                let k = choose|k: int| 0 <= k < a.kv.entries@.len() && a.kv.entries@[k] == b.kv.entries@[i];
                assert(covered(es, d, a.kv.entries@[k].toks@));
            }
            d
        }
    }
}

/// A run decodes at least all the text that its prompts need past what was cached.
proof fn lemma_all_needed(o: &Kv, jobs: Seq<Job>, d: Set<Seq<i32>>, at: Point, j: int, q: Seq<i32>)
    requires
        reached(o.entries@, jobs, d, at),
        at.left.len() == 0,
        jobs.len() <= usize::MAX,
        0 <= j < jobs.len(),
        needed(o.entries@, jobs[j].toks@, q),
    ensures
        d.contains(q),
{
    let t = jobs[j].toks@;
    assert(!at.left.contains(j as usize));
    assert(prompted(o.entries@, d, jobs[(j as usize) as int].toks@));
    let l = choose|l: int| #[trigger] covered_from(o.entries@, d, t, l) && l < t.len();
    if l > 0 {
        let i = choose|i: int| 0 <= i < o.entries@.len() && (#[trigger] o.entries@[i]).toks@ == t.take(l);
        assert(t.take(l) =~= t.subrange(0, l));
        assert(kv::forkable(o.entries@[i], t, true));
    }
    assert(q =~= t.take(q.len() as int));
}

/// A text is decoded for one base only, in one wave.
proof fn lemma_one_base(es: Seq<Entry>, n_seq: int, jobs: Seq<Job>, items: Seq<Item>, n: int)
    requires
        kv::entries_ok(es, n_seq),
        spoken(jobs),
        0 <= n <= items.len(),
        forall|k: int| 0 <= k < items.len() ==> kv::item_ok(jobs, es, true, #[trigger] items[k]),
    ensures
        vstd::relations::injective_on(|p: (i32, Seq<i32>)| p.1, plan::pieces(items, n)),
{
    let f = |p: (i32, Seq<i32>)| p.1;
    assert forall|p: (i32, Seq<i32>), q: (i32, Seq<i32>)|
        plan::pieces(items, n).contains(p) && plan::pieces(items, n).contains(q) && #[trigger] f(p) == #[trigger] f(
            q,
        ) implies p == q by {
        let i = choose|i: int| 0 <= i < n && plan::is_piece(#[trigger] items[i], p);
        let k = choose|k: int| 0 <= k < n && plan::is_piece(#[trigger] items[k], q);
        lemma_same_base(es, n_seq, jobs, items[i], items[k], p.1);
    }
}

/// Prompts that share text past their bases have the same base.
proof fn lemma_same_base(es: Seq<Entry>, n_seq: int, jobs: Seq<Job>, x: Item, y: Item, q: Seq<i32>)
    requires
        kv::entries_ok(es, n_seq),
        spoken(jobs),
        kv::item_ok(jobs, es, true, x),
        kv::item_ok(jobs, es, true, y),
        x.blen < q.len() <= x.toks@.len(),
        y.blen < q.len() <= y.toks@.len(),
        q == x.toks@.take(q.len() as int),
        q == y.toks@.take(q.len() as int),
    ensures
        x.base == y.base,
{
    assert(jobs[x.job as int].toks@.len() > 0 && jobs[y.job as int].toks@.len() > 0);
    kv::lemma_base(es, n_seq, x.toks@, true, x.base, x.blen as int);
    kv::lemma_base(es, n_seq, y.toks@, true, y.base, y.blen as int);
    lemma_forks_too(es, n_seq, jobs, x, y, q);
    lemma_forks_too(es, n_seq, jobs, y, x, q);
    if x.base >= 0 && y.base >= 0 {
        let i = choose|i: int| 0 <= i < es.len() && (#[trigger] es[i]).seq == x.base && es[i].toks@ == x.toks@.take(x.blen as int);
        let k = choose|k: int| 0 <= k < es.len() && (#[trigger] es[k]).seq == y.base && es[k].toks@ == y.toks@.take(y.blen as int);
        assert(x.toks@.take(x.blen as int) =~= q.take(x.blen as int));
        assert(y.toks@.take(y.blen as int) =~= q.take(y.blen as int));
        assert(es[i].toks@ == es[k].toks@);
    }
}

/// A prompt can fork off the base of another that it shares text past it with.
proof fn lemma_forks_too(es: Seq<Entry>, n_seq: int, jobs: Seq<Job>, x: Item, y: Item, q: Seq<i32>)
    requires
        kv::entries_ok(es, n_seq),
        kv::item_ok(jobs, es, true, x),
        kv::item_ok(jobs, es, true, y),
        x.toks@.len() > 0,
        y.toks@.len() > 0,
        x.blen < q.len() <= x.toks@.len(),
        y.blen < q.len() <= y.toks@.len(),
        q == x.toks@.take(q.len() as int),
        q == y.toks@.take(q.len() as int),
    ensures
        x.blen <= y.blen,
        x.base >= 0 ==> y.base >= 0,
{
    kv::lemma_base(es, n_seq, x.toks@, true, x.base, x.blen as int);
    if x.base >= 0 {
        let i = choose|i: int| 0 <= i < es.len() && (#[trigger] es[i]).seq == x.base && es[i].toks@ == x.toks@.take(x.blen as int);
        assert(x.toks@.take(x.blen as int) =~= q.take(x.blen as int));
        assert(y.toks@.subrange(0, x.blen as int) =~= q.take(x.blen as int));
        assert(kv::forkable(es[i], y.toks@, true));
        assert(es[i].toks@.len() == x.blen);
        kv::law_cached_is_forked(es, y.toks@, y.base, y.blen as int, i);
        kv::lemma_base(es, n_seq, y.toks@, true, y.base, y.blen as int);
    }
}

/// Jobs with the same prompts.
pub open spec fn same_prompts(a: Seq<Job>, b: Seq<Job>) -> bool {
    a.len() == b.len() && forall|j: int| 0 <= j < a.len() ==> (#[trigger] a[j]).toks@ == b[j].toks@
}

/// What the prompts could fork off in the cache `a`, they can fork off in `b`.
pub open spec fn still_forked(a: Seq<Entry>, b: Seq<Entry>, jobs: Seq<Job>) -> bool {
    forall|i: int, j: int|
        0 <= i < a.len() && 0 <= j < jobs.len() && kv::forkable(#[trigger] a[i], (#[trigger] jobs[j]).toks@, true)
            ==> exists|k: int| 0 <= k < b.len() && (#[trigger] b[k]).toks@ == a[i].toks@
}

/// Entries were made before now.
pub open spec fn clocked(es: Seq<Entry>, tick: u64) -> bool {
    forall|i: int| 0 <= i < es.len() ==> (#[trigger] es[i]).born <= tick
}

/// Text that a wave over the cache of `f` decodes was decoded by an earlier run,
/// over the cache of `o`, that left `f`.
proof fn lemma_decoded_before(
    o: &Kv,
    f: &Kv,
    jobs: Seq<Job>,
    twins: Seq<Job>,
    d: Set<Seq<i32>>,
    at: Point,
    items: Seq<Item>,
    n: int,
    q: Seq<i32>,
) -> (j: int)
    requires
        reached(o.entries@, jobs, d, at),
        at.left.len() == 0,
        jobs.len() <= usize::MAX,
        same_prompts(jobs, twins),
        still_forked(o.entries@, f.entries@, jobs),
        0 <= n <= items.len(),
        forall|k: int| 0 <= k < items.len() ==> kv::item_ok(twins, f.entries@, true, #[trigger] items[k]),
        texts(items, n).contains(q),
    ensures
        d.contains(q),
        0 <= j < jobs.len(),
        needed(f.entries@, jobs[j].toks@, q),
{
    let p = choose|p: (i32, Seq<i32>)| plan::pieces(items, n).contains(p) && q == p.1;
    let k = choose|k: int| 0 <= k < n && plan::is_piece(#[trigger] items[k], p);
    let x = items[k];
    let j = x.job as int;
    let t = jobs[j].toks@;
    assert(kv::item_ok(twins, f.entries@, true, x));
    assert(twins[j].toks@ == t);
    assert(q =~= t.subrange(0, q.len() as int));
    assert(needed(f.entries@, t, q)) by {
        assert forall|i: int| 0 <= i < f.entries@.len() && kv::forkable(#[trigger] f.entries@[i], t, true) implies f.entries@[i].toks@.len()
            < q.len() by {
            kv::law_cached_is_forked(f.entries@, t, x.base, x.blen as int, i);
        }
    }
    assert(needed(o.entries@, t, q)) by {
        assert forall|i: int| 0 <= i < o.entries@.len() && kv::forkable(#[trigger] o.entries@[i], t, true) implies o.entries@[i].toks@.len()
            < q.len() by {
            let e = o.entries@[i];
            assert(kv::forkable(e, jobs[j].toks@, true));
            let k = choose|k: int| 0 <= k < f.entries@.len() && (#[trigger] f.entries@[k]).toks@ == e.toks@;
            assert(kv::forkable(f.entries@[k], t, true));
        }
    }
    lemma_all_needed(o, jobs, d, at, j, q);
    j
}

/// Some item of a wave that forks off a cached span is a hit.
proof fn lemma_hit(es: Seq<Entry>, items: Seq<Item>, first: u64, n: int, k: int)
    requires
        0 <= k < n,
        run::cached_before(es, items[k].base, first),
    ensures
        run::hits(es, items, first, n) > 0,
    decreases n,
{
    if k < n - 1 {
        lemma_hit(es, items, first, n - 1, k);
    }
}

/// Run again, the same prompts decode less. A run of `jobs` over the cache of `o`, in
/// however many waves, left the cache of `f`; run again in one wave, as `twins`, they decode
/// fewer tokens, for some prompt `j` now forks off a span past all that it could
/// fork off before, and one that is no prompt itself. Where that span was cached
/// by an earlier run, the second one counts a hit.
pub proof fn law_repeat_decodes_less(
    o: &Kv,
    f: &Kv,
    g: &Kv,
    jobs: Seq<Job>,
    twins: Seq<Job>,
    once: Stats,
    again: Stats,
    there: Seq<Point>,
    back: Seq<Point>,
    i: int,
    j: int,
)
    requires
        spoken(jobs),
        jobs.len() <= usize::MAX,
        run::arrived(o, f, jobs, true, once, there),
        same_prompts(jobs, twins),
        run::arrived(f, g, twins, true, again, back),
        back.len() == 2,
        run::same_head(f.entries@, o.entries@),
        still_forked(o.entries@, f.entries@, jobs),
        0 <= i < f.entries@.len(),
        0 <= j < jobs.len(),
        kv::forkable(f.entries@[i], jobs[j].toks@, true),
        needed(o.entries@, jobs[j].toks@, f.entries@[i].toks@),
        forall|k: int| 0 <= k < jobs.len() ==> (#[trigger] jobs[k]).toks@ != f.entries@[i].toks@,
    ensures
        again.decoded < once.decoded,
        again.waves == 1,
        clocked(f.entries@, f.tick) && f.tick < u64::MAX ==> again.hits > 0,
{
    let d = lemma_reached(o, jobs, run::next_tick(o.tick), there);
    let at = there.last();
    assert(spoken(twins)) by {
        assert forall|k: int| 0 <= k < twins.len() implies (#[trigger] twins[k]).toks@.len() > 0 by {
            assert(jobs[k].toks@.len() > 0);
        }
    }
    assert(jobs[j].toks@ == twins[j].toks@);
    let (a, b) = (back[0], back[1]);
    let first = run::next_tick(f.tick);
    assert(back.last() == b && back[back.len() - 2] == a);
    assert(run::step(twins, true, first, a, b));
    reveal(run::step);
    assert(a.left[j] == j as usize);
    assert(a.left.len() > 0);
    assert(run::waved(a.kv, b.kv, twins, a.left, b.left, true, a.limit, first, a.st, b.st));
    let (items, p) = choose|items: Seq<Item>, p: Plan| #[trigger]
        run::went_through(a.kv, b.kv, twins, items, p, a.left, b.left, true, a.limit, first, a.st, b.st);
    let n = p.n as int;
    assert(n == items.len());
    lemma_items(&a.kv, twins, a.left, a.limit, items, p);
    lemma_one_base(f.entries@, a.kv.n_seq as int, twins, items, n);
    let h = |p: (i32, Seq<i32>)| p.1;
    vstd::set_lib::lemma_map_size(plan::pieces(items, n), texts(items, n), h);
    let q = f.entries@[i].toks@;
    lemma_all_needed(o, jobs, d, at, j, q);
    assert(texts(items, n).subset_of(d.remove(q))) by {
        assert forall|t: Seq<i32>| texts(items, n).contains(t) implies d.remove(q).contains(t) by {
            let k = lemma_decoded_before(o, f, jobs, twins, d, at, items, n, t);
            if t == q {
                assert(jobs[k].toks@ != q);
                if q.len() == jobs[k].toks@.len() {
                    assert(q =~= jobs[k].toks@);
                }
                assert(kv::forkable(f.entries@[i], jobs[k].toks@, true));
            }
        }
    }
    vstd::set_lib::lemma_len_subset(texts(items, n), d.remove(q));
    if clocked(f.entries@, f.tick) && f.tick < u64::MAX {
        lemma_forks_cached(o, f, twins, a.left, items, i, j, first);
        let k = choose|k: int| 0 <= k < n && run::cached_before(f.entries@, (#[trigger] items[k]).base, first);
        lemma_hit(f.entries@, items, first, n, k);
    }
}

/// The prompt that forks off a span past all it could fork off before forks off one
/// that is not the head.
proof fn lemma_forks_cached(
    o: &Kv,
    f: &Kv,
    jobs: Seq<Job>,
    pending: Seq<usize>,
    items: Seq<Item>,
    i: int,
    j: int,
    first: u64,
)
    requires
        run::same_head(f.entries@, o.entries@),
        wave::lined_up(items, jobs, pending, f.entries@, true),
        0 <= i < f.entries@.len(),
        0 <= j < jobs.len() <= usize::MAX,
        pending.contains(j as usize),
        kv::forkable(f.entries@[i], jobs[j].toks@, true),
        needed(o.entries@, jobs[j].toks@, f.entries@[i].toks@),
        clocked(f.entries@, f.tick),
        f.tick < first,
    ensures
        exists|k: int| 0 <= k < items.len() && run::cached_before(f.entries@, (#[trigger] items[k]).base, first),
{
    let es = f.entries@;
    let t = jobs[j].toks@;
    let all = wave::jobs_of(items);
    assert(all.contains(j as usize));
    let k = choose|k: int| 0 <= k < all.len() && all[k] == j as usize;
    let x = items[k];
    assert(kv::item_ok(jobs, es, true, x));
    let v = choose|v: int|
        0 <= v < es.len() && kv::forkable(#[trigger] es[v], t, true) && es[v].seq == x.base && es[v].toks@.len() == x.blen
            && forall|w: int| 0 <= w < es.len() && kv::forkable(#[trigger] es[w], t, true) ==> es[w].toks@.len() <= x.blen;
    if es[v].pinned {
        assert(run::resident(es, es[v].toks@));
        assert(run::resident(o.entries@, es[v].toks@));
        let u = choose|u: int|
            0 <= u < o.entries@.len() && (#[trigger] o.entries@[u]).pinned && o.entries@[u].toks@ == es[v].toks@;
        assert(kv::forkable(o.entries@[u], t, true));
    }
    assert(es[v].born <= f.tick);
    assert(run::cached_before(es, items[k].base, first));
}

/// `e` is a span of some prompt, past what the prompt can fork off in `es`.
pub open spec fn span_of(es: Seq<Entry>, jobs: Seq<Job>, e: Entry, j: int) -> bool {
    &&& 0 <= j < jobs.len()
    &&& kv::forkable(e, jobs[j].toks@, true)
    &&& needed(es, jobs[j].toks@, e.toks@)
}

/// At a point of a run over memory that held but the head, entries are no younger
/// than the clock says, and all but the head are spans of prompts.
spec fn furnished(es: Seq<Entry>, jobs: Seq<Job>, now: Seq<Entry>, tick: u64) -> bool {
    &&& run::same_head(now, es)
    &&& clocked(now, tick)
    &&& forall|i: int|
        0 <= i < now.len() && !(#[trigger] now[i]).pinned ==> exists|j: int| #[trigger] span_of(es, jobs, now[i], j)
}

/// What is left of a furnished cache is furnished.
proof fn lemma_less_furnished(es: Seq<Entry>, jobs: Seq<Job>, now: Seq<Entry>, less: Seq<Entry>, tick: u64, later: u64)
    requires
        furnished(es, jobs, now, tick),
        kv::among(less, now),
        run::same_head(less, es),
        tick <= later,
    ensures
        furnished(es, jobs, less, later),
{
    assert forall|i: int| 0 <= i < less.len() implies (#[trigger] less[i]).born <= later && (!less[i].pinned ==> exists|j: int|
        #[trigger] span_of(es, jobs, less[i], j)) by {
        assert(now.contains(less[i]));
        let k = choose|k: int| 0 <= k < now.len() && now[k] == less[i];
        assert(now[k].born <= tick);
    }
}

/// A span that a wave caches is one of a prompt, past the head.
proof fn lemma_new_span(es: Seq<Entry>, jobs: Seq<Job>, a: Kv, pending: Seq<usize>, limit: int, items: Seq<Item>, p: Plan, t: int, e: Entry)
    requires
        forall|i: int| 0 <= i < es.len() ==> (#[trigger] es[i]).pinned,
        run::same_head(a.entries@, es),
        plan::in_order(items),
        plan::same_base(items),
        run::wave_of(&a, jobs, pending, true, limit, items, p),
        0 <= t < p.spans@.len(),
        e.toks@ == p.spans@[t].toks@,
    ensures
        exists|j: int| #[trigger] span_of(es, jobs, e, j),
{
    let k = lemma_span_source(a, jobs, pending, limit, items, p, t);
    let x = items[k];
    assert(kv::item_ok(jobs, a.entries@, true, x));
    let j = x.job as int;
    let toks = jobs[j].toks@;
    assert forall|i: int| 0 <= i < es.len() && kv::forkable(#[trigger] es[i], toks, true) implies es[i].toks@.len()
        < e.toks@.len() by {
        assert(run::resident(es, es[i].toks@));
        assert(run::resident(a.entries@, es[i].toks@));
        let u = choose|u: int|
            0 <= u < a.entries@.len() && (#[trigger] a.entries@[u]).pinned && a.entries@[u].toks@ == es[i].toks@;
        kv::law_cached_is_forked(a.entries@, toks, x.base, x.blen as int, u);
    }
    assert(span_of(es, jobs, e, j));
}

/// An entry that a wave leaves is as one was before, but for its last use; or it is
/// that of a span, made just now.
proof fn lemma_entry_made(a: Kv, b: Kv, items: Seq<Item>, p: Plan, i: int) -> (k: Option<int>)
    requires
        run::cache_after(a, b, items, p),
        0 <= i < b.entries@.len(),
    ensures
        match k {
            Some(k) => 0 <= k < a.entries@.len() && b.entries@[i].toks == a.entries@[k].toks && b.entries@[i].born
                == a.entries@[k].born && b.entries@[i].pinned == a.entries@[k].pinned,
            None => b.entries@[i].born == b.tick && exists|t: int|
                0 <= t < p.spans@.len() && (#[trigger] p.spans@[t]).toks@ == b.entries@[i].toks@,
        },
        a.tick <= b.tick,
{
    reveal(run::cache_after);
    let kept = wave::roomed(&a, items, p);
    let spans = wave::kept_spans(&a, items, p);
    let mine = kv::bases(items, p.n as int);
    let seqs = choose|seqs: Seq<i32>| #[trigger] run::recached(kept, b.entries@, spans, seqs, mine, b.tick);
    let n = kept.len() as int;
    if i < n {
        assert(b.entries@.take(n)[i] == b.entries@[i]);
        lemma_roomed_among(&a, items, p);
        assert(a.entries@.contains(kept[i]));
        Some(choose|k: int| 0 <= k < a.entries@.len() && a.entries@[k] == kept[i])
    } else {
        assert(run::is_entry_of(b.entries@[n + (i - n)], spans[i - n], seqs[i - n], b.tick));
        assert(p.spans@[i - n].toks@ == b.entries@[i].toks@);
        None
    }
}

/// Entries all along a run over memory that held but the head.
proof fn lemma_furnished(es: Seq<Entry>, jobs: Seq<Job>, first: u64, way: Seq<Point>)
    requires
        forall|i: int| 0 <= i < es.len() ==> (#[trigger] es[i]).pinned,
        spoken(jobs),
        way.len() > 0,
        run::led(jobs, true, first, way),
        way[0].kv.settled(),
        way[0].kv.entries@ == es,
        clocked(es, way[0].kv.tick),
    ensures
        furnished(es, jobs, way.last().kv.entries@, way.last().kv.tick),
        way.last().kv.settled(),
    decreases way.len(),
{
    if way.len() > 1 {
        let before = way.drop_last();
        let (a, b) = (way[way.len() - 2], way.last());
        lemma_furnished(es, jobs, first, before);
        assert(before.last() == a);
        reveal(run::step);
        assert(run::same_head(b.kv.entries@, es)) by {
            assert forall|t: Seq<i32>| #[trigger] run::resident(b.kv.entries@, t) <==> run::resident(es, t) by {
                assert(run::resident(a.kv.entries@, t) <==> run::resident(es, t));
            }
        }
        if run::waved(a.kv, b.kv, jobs, a.left, b.left, true, a.limit, first, a.st, b.st) {
            let (items, p) = choose|items: Seq<Item>, p: Plan| #[trigger]
                run::went_through(a.kv, b.kv, jobs, items, p, a.left, b.left, true, a.limit, first, a.st, b.st);
            lemma_items(&a.kv, jobs, a.left, a.limit, items, p);
            assert forall|i: int| 0 <= i < b.kv.entries@.len() implies (#[trigger] b.kv.entries@[i]).born <= b.kv.tick && (
            !b.kv.entries@[i].pinned ==> exists|j: int| #[trigger] span_of(es, jobs, b.kv.entries@[i], j)) by {
                let e = b.kv.entries@[i];
                match lemma_entry_made(a.kv, b.kv, items, p, i) {
                    Some(k) => {
                        let c = a.kv.entries@[k];
                        assert(c.born <= a.kv.tick);
                        if !e.pinned {
                            let j = choose|j: int| #[trigger] span_of(es, jobs, c, j);
                            assert(span_of(es, jobs, e, j));
                        }
                    },
                    None => {
                        let t = choose|t: int| 0 <= t < p.spans@.len() && (#[trigger] p.spans@[t]).toks@ == e.toks@;
                        lemma_new_span(es, jobs, a.kv, a.left, a.limit, items, p, t, e);
                    },
                }
            }
        } else {
            let (items, p) = choose|items: Seq<Item>, p: Plan| #[trigger]
                run::turned_down(a.kv, b.kv, jobs, items, p, a.left, true, a.limit, true) && !run::hopeless(a.kv, items, p);
            let kept = wave::roomed(&a.kv, items, p);
            let mine = kv::bases(items, p.n as int);
            lemma_roomed_among(&a.kv, items, p);
            if kv::some_evictable(kept, mine, false) {
                lemma_evicted_one(kept, mine, false);
                lemma_among_trans(b.kv.entries@, kept, a.kv.entries@);
            }
            lemma_less_furnished(es, jobs, a.kv.entries@, b.kv.entries@, a.kv.tick, b.kv.tick);
        }
    }
}

/// Run again over a cache that began with the head alone, the same prompts decode
/// less and hit: a first run of `jobs`, in however many waves, left a span cached
/// beside the head, one that is no prompt itself; a second one, of `twins`, went in
/// one wave.
pub proof fn law_second_run_decodes_less(
    o: &Kv,
    f: &Kv,
    g: &Kv,
    jobs: Seq<Job>,
    twins: Seq<Job>,
    once: Stats,
    again: Stats,
    there: Seq<Point>,
    back: Seq<Point>,
    i: int,
)
    requires
        run::fresh(o),
        spoken(jobs),
        jobs.len() <= usize::MAX,
        run::arrived(o, f, jobs, true, once, there),
        same_prompts(jobs, twins),
        run::arrived(f, g, twins, true, again, back),
        back.len() == 2,
        run::same_head(f.entries@, o.entries@),
        0 <= i < f.entries@.len(),
        !f.entries@[i].pinned,
        forall|k: int| 0 <= k < jobs.len() ==> (#[trigger] jobs[k]).toks@ != f.entries@[i].toks@,
        f.tick < u64::MAX,
    ensures
        again.decoded < once.decoded,
        again.hits > 0,
{
    let es = o.entries@;
    lemma_furnished(es, jobs, run::next_tick(o.tick), there);
    let last = there.last().kv;
    let none = Seq::<i32>::empty();
    let never = |es: Seq<Entry>| false;
    let half = run::halved(o.n_seq as int, o.n_ctx as int);
    let lasting = kv::evicted_until(last.entries@, none, true, never);
    lemma_evicted_among(last.entries@, none, true, never);
    lemma_evicted_among(lasting, none, false, half);
    lemma_among_trans(f.entries@, lasting, last.entries@);
    lemma_less_furnished(es, jobs, last.entries@, f.entries@, last.tick, f.tick);
    let j = choose|j: int| #[trigger] span_of(es, jobs, f.entries@[i], j);
    assert(still_forked(es, f.entries@, jobs)) by {
        assert forall|u: int, j: int|
            0 <= u < es.len() && 0 <= j < jobs.len() && kv::forkable(#[trigger] es[u], (#[trigger] jobs[j]).toks@, true)
            implies exists|k: int| 0 <= k < f.entries@.len() && (#[trigger] f.entries@[k]).toks@ == es[u].toks@ by {
            assert(run::resident(es, es[u].toks@));
            assert(run::resident(f.entries@, es[u].toks@));
        }
    }
    law_repeat_decodes_less(o, f, g, jobs, twins, once, again, there, back, i, j);
}

/// So far a run decoded no more than the prompts it answered have tokens; less once
/// prompt `j`, which extends the head, was answered.
proof fn lemma_spent(es: Seq<Entry>, jobs: Seq<Job>, shared: bool, first: u64, way: Seq<Point>, j: int, head: Seq<i32>)
    requires
        jobs.len() <= usize::MAX,
        0 <= j < jobs.len(),
        way.len() > 0,
        run::led(jobs, shared, first, way),
        way[0].kv.settled(),
        way[0].kv.entries@ == es,
        way[0].left == Seq::new(jobs.len(), |i: int| i as usize),
        way[0].st.decoded == 0,
        run::resident(es, head),
        head.len() < jobs[j].toks@.len(),
        head.is_prefix_of(jobs[j].toks@),
    ensures
        way.last().kv.settled(),
        run::resident(way.last().kv.entries@, head),
        way.last().st.decoded + weight::weight(jobs, way.last().left, jobs.len() as int) <= weight::prompt_tokens(jobs),
        !way.last().left.contains(j as usize) ==> way.last().st.decoded + weight::weight(
            jobs,
            way.last().left,
            jobs.len() as int,
        ) < weight::prompt_tokens(jobs),
    decreases way.len(),
{
    let total = jobs.len() as int;
    if way.len() == 1 {
        let left = way[0].left;
        assert forall|k: usize| k < jobs.len() implies #[trigger] left.contains(k) by {
            assert(left[k as int] == k);
        }
        weight::lemma_all_weight(jobs, left, total);
        assert(jobs.take(total) =~= jobs);
    } else {
        let before = way.drop_last();
        let (a, b) = (way[way.len() - 2], way.last());
        lemma_spent(es, jobs, shared, first, before, j, head);
        assert(before.last() == a);
        reveal(run::step);
        assert(run::resident(b.kv.entries@, head) <==> run::resident(a.kv.entries@, head));
        if run::waved(a.kv, b.kv, jobs, a.left, b.left, shared, a.limit, first, a.st, b.st) {
            let (items, p) = choose|items: Seq<Item>, p: Plan| #[trigger]
                run::went_through(a.kv, b.kv, jobs, items, p, a.left, b.left, shared, a.limit, first, a.st, b.st);
            let n = p.n as int;
            assert forall|k: int| 0 <= k < items.len() implies (#[trigger] items[k]).job < jobs.len() && items[k].toks
                == jobs[items[k].job as int].toks by {
                assert(kv::item_ok(jobs, a.kv.entries@, shared, items[k]));
            }
            weight::lemma_cells_weigh(jobs, items, shared, n);
            weight::lemma_left_weighs(jobs, items, a.left, n);
            if a.left.contains(j as usize) && !b.left.contains(j as usize) {
                lemma_forks_head(a.kv.entries@, a.kv.n_seq as int, jobs, shared, items, a.left, n, j, head);
            }
        }
    }
}

/// A prompt that extends the resident head, answered by a wave, forks off something.
proof fn lemma_forks_head(es: Seq<Entry>, n_seq: int, jobs: Seq<Job>, shared: bool, items: Seq<Item>, pending: Seq<usize>, n: int, j: int, head: Seq<i32>)
    requires
        kv::entries_ok(es, n_seq),
        jobs.len() <= usize::MAX,
        0 <= j < jobs.len(),
        0 <= n <= items.len(),
        wave::lined_up(items, jobs, pending, es, shared),
        pending.contains(j as usize),
        !wave::jobs_of(items).skip(n).contains(j as usize),
        run::resident(es, head),
        head.len() < jobs[j].toks@.len(),
        head.is_prefix_of(jobs[j].toks@),
    ensures
        exists|k: int| 0 <= k < n && (#[trigger] items[k]).blen > 0,
{
    let all = wave::jobs_of(items);
    assert(all.contains(j as usize));
    let k = choose|k: int| 0 <= k < all.len() && all[k] == j as usize;
    if k >= n {
        assert(all.skip(n)[k - n] == j as usize);
    }
    let x = items[k];
    assert(kv::item_ok(jobs, es, shared, x));
    let i = choose|i: int| 0 <= i < es.len() && (#[trigger] es[i]).pinned && es[i].toks@ == head;
    assert(kv::forkable(es[i], x.toks@, shared));
    assert(es[i].toks@.len() > 0);
    assert(x.blen > 0);
}

/// In either mode, a run decodes fewer tokens than its prompts have: the resident
/// head is not decoded again for a prompt that extends it.
pub proof fn law_head_is_not_decoded(o: &Kv, f: &Kv, jobs: Seq<Job>, shared: bool, st: Stats, way: Seq<Point>, j: int, head: Seq<i32>)
    requires
        run::arrived(o, f, jobs, shared, st, way),
        jobs.len() <= usize::MAX,
        0 <= j < jobs.len(),
        run::resident(o.entries@, head),
        head.len() < jobs[j].toks@.len(),
        head.is_prefix_of(jobs[j].toks@),
    ensures
        st.decoded < weight::prompt_tokens(jobs),
{
    lemma_spent(o.entries@, jobs, shared, run::next_tick(o.tick), way, j, head);
    assert(!way.last().left.contains(j as usize));
}

} // verus!
