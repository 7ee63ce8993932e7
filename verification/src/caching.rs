//! What the cache promises: what was used last stays longest, the head and what
//! is needed always stay, nothing goes that there is room for, and the counts
//! count what they say.
use vstd::prelude::*;

use crate::kv;
use crate::kv::{Entry, Kv};
use crate::plan;
use crate::plan::{Item, Plan, Span};
use crate::prefix;
use crate::run;
use crate::wave;

verus! {

/// What goes when room is made: never the head, nothing that is held, only
/// request-scoped entries where only those may, and nothing that was used after
/// another that could go. All other entries stay.
pub proof fn law_eviction(es: Seq<Entry>, n_seq: int, hold: Seq<i32>, temp: bool, v: int)
    requires
        kv::entries_ok(es, n_seq),
        kv::least_recent(es, hold, temp, v),
    ensures
        !es[v].pinned,
        !hold.contains(es[v].seq),
        temp ==> es[v].temp,
        forall|j: int|
            0 <= j < es.len() && !(#[trigger] es[j]).pinned && !hold.contains(es[j].seq) && (!temp || es[j].temp) ==> es[v].tick
                <= es[j].tick,
        kv::evicted(es, hold, temp).len() == es.len() - 1,
        forall|j: int| 0 <= j < es.len() && j != v ==> kv::evicted(es, hold, temp).contains(#[trigger] es[j]),
        forall|j: int| 0 <= j < kv::evicted(es, hold, temp).len() ==> (#[trigger] kv::evicted(es, hold, temp)[j]).seq != es[v].seq,
{
    lemma_victim(es, hold, temp, v);
    let r = kv::swap_removed(es, v);
    let n = es.len() as int;
    assert forall|j: int|
        0 <= j < es.len() && !(#[trigger] es[j]).pinned && !hold.contains(es[j].seq) && (!temp || es[j].temp) implies es[v].tick
        <= es[j].tick by {
        assert(kv::evictable(es[j], hold, temp));
    }
    assert forall|j: int| 0 <= j < n && j != v implies r.contains(#[trigger] es[j]) by {
        if j == n - 1 {
            assert(r[v] == es[j]);
        } else {
            assert(r[j] == es[j]);
        }
    }
    assert forall|j: int| 0 <= j < r.len() implies (#[trigger] r[j]).seq != es[v].seq by {
        let k = if j == v {
            n - 1
        } else {
            j
        };
        assert(r[j] == es[k]);
        if k < v {
            assert(es[k].seq != es[v].seq);
        } else {
            assert(es[v].seq != es[k].seq);
        }
    }
}

proof fn lemma_victim(es: Seq<Entry>, hold: Seq<i32>, temp: bool, v: int)
    requires
        kv::least_recent(es, hold, temp, v),
    ensures
        kv::first_to_go(es, hold, temp) == v,
{
    let j = choose|j: int| #[trigger] kv::least_recent(es, hold, temp, j);
    assert(kv::evictable(es[v], hold, temp) && kv::evictable(es[j], hold, temp));
}

/// The least recently used of the first `n` entries that may go, where one may.
proof fn lemma_oldest(es: Seq<Entry>, hold: Seq<i32>, temp: bool, n: int, k: int) -> (v: int)
    requires
        0 <= k < n <= es.len(),
        kv::evictable(es[k], hold, temp),
    ensures
        0 <= v < n,
        kv::evictable(es[v], hold, temp),
        forall|j: int|
            0 <= j < n && kv::evictable(#[trigger] es[j], hold, temp) ==> es[v].tick < es[j].tick || (es[v].tick
                == es[j].tick && v <= j),
    decreases n,
{
    if k < n - 1 {
        let v = lemma_oldest(es, hold, temp, n - 1, k);
        if kv::evictable(es[n - 1], hold, temp) && es[n - 1].tick < es[v].tick {
            n - 1
        } else {
            v
        }
    } else if exists|j: int| 0 <= j < n - 1 && kv::evictable(#[trigger] es[j], hold, temp) {
        let j = choose|j: int| 0 <= j < n - 1 && kv::evictable(#[trigger] es[j], hold, temp);
        let v = lemma_oldest(es, hold, temp, n - 1, j);
        if es[n - 1].tick < es[v].tick {
            n - 1
        } else {
            v
        }
    } else {
        k
    }
}

/// Room can be made wherever an entry is neither the head nor held.
pub proof fn law_some_evictable(es: Seq<Entry>, hold: Seq<i32>, temp: bool)
    ensures
        kv::some_evictable(es, hold, temp) <==> exists|k: int|
            0 <= k < es.len() && !(#[trigger] es[k]).pinned && !hold.contains(es[k].seq) && (!temp || es[k].temp),
{
    if kv::some_evictable(es, hold, temp) {
        let v = choose|v: int| #[trigger] kv::least_recent(es, hold, temp, v);
        assert(!es[v].pinned && !hold.contains(es[v].seq) && (!temp || es[v].temp));
    }
    if exists|k: int| 0 <= k < es.len() && !(#[trigger] es[k]).pinned && !hold.contains(es[k].seq) && (!temp || es[k].temp) {
        let k = choose|k: int|
            0 <= k < es.len() && !(#[trigger] es[k]).pinned && !hold.contains(es[k].seq) && (!temp || es[k].temp);
        let v = lemma_oldest(es, hold, temp, es.len() as int, k);
        assert(kv::least_recent(es, hold, temp, v));
    }
}

proof fn lemma_evicted_ok(es: Seq<Entry>, n_seq: int, hold: Seq<i32>, temp: bool, v: int)
    requires
        kv::entries_ok(es, n_seq),
        kv::least_recent(es, hold, temp, v),
    ensures
        kv::entries_ok(kv::evicted(es, hold, temp), n_seq),
        forall|x: Entry| #[trigger] kv::evicted(es, hold, temp).contains(x) ==> es.contains(x),
{
    lemma_victim(es, hold, temp, v);
    let r = kv::swap_removed(es, v);
    let n = es.len() as int;
    assert forall|j: int| 0 <= j < r.len() implies (#[trigger] r[j]) == (if j == v { es[n - 1] } else { es[j] }) by {}
    assert forall|i: int, j: int| 0 <= i < j < r.len() implies (#[trigger] r[i]).seq != (#[trigger] r[j]).seq
        && r[i].toks@ != r[j].toks@ by {
        let (a, b) = (if i == v { n - 1 } else { i }, if j == v { n - 1 } else { j });
        if a < b {
            assert(es[a].seq != es[b].seq);
        } else {
            assert(es[b].seq != es[a].seq);
        }
    }
    assert forall|x: Entry| #[trigger] r.contains(x) implies es.contains(x) by {
        let j = choose|j: int| 0 <= j < r.len() && r[j] == x;
        assert(es[if j == v { n - 1 } else { j }] == x);
    }
}

/// Making room stops as soon as there is enough, and goes on only where an entry
/// may go. The head and what is held stay. Whatever went was last used no later
/// than anything that could have gone and stayed.
pub proof fn law_evicted_until(es: Seq<Entry>, n_seq: int, hold: Seq<i32>, temp: bool, done: spec_fn(Seq<Entry>) -> bool)
    requires
        kv::entries_ok(es, n_seq),
    ensures
        ({
            let r = kv::evicted_until(es, hold, temp, done);
            &&& kv::entries_ok(r, n_seq)
            &&& done(es) ==> r == es
            &&& done(r) || !kv::some_evictable(r, hold, temp)
            &&& forall|x: Entry| #[trigger] r.contains(x) ==> es.contains(x)
            &&& forall|x: Entry| #[trigger] es.contains(x) && !kv::evictable(x, hold, temp) ==> r.contains(x)
            &&& forall|x: Entry, y: Entry|
                #[trigger] es.contains(x) && !r.contains(x) && #[trigger] r.contains(y) && kv::evictable(y, hold, temp)
                    ==> x.tick <= y.tick
        }),
    decreases es.len(),
{
    let r = kv::evicted_until(es, hold, temp, done);
    if !done(es) && kv::some_evictable(es, hold, temp) {
        let v = choose|v: int| #[trigger] kv::least_recent(es, hold, temp, v);
        let d = kv::evicted(es, hold, temp);
        law_eviction(es, n_seq, hold, temp, v);
        lemma_evicted_ok(es, n_seq, hold, temp, v);
        law_evicted_until(d, n_seq, hold, temp, done);
        assert forall|x: Entry| #[trigger] es.contains(x) && !kv::evictable(x, hold, temp) implies r.contains(x) by {
            let j = choose|j: int| 0 <= j < es.len() && es[j] == x;
            assert(j != v);
            assert(d.contains(es[j]));
        }
        assert forall|x: Entry, y: Entry|
            #[trigger] es.contains(x) && !r.contains(x) && #[trigger] r.contains(y) && kv::evictable(y, hold, temp) implies x.tick
            <= y.tick by {
            let i = choose|i: int| 0 <= i < es.len() && es[i] == x;
            assert(d.contains(y));
            assert(es.contains(y));
            let k = choose|k: int| 0 <= k < es.len() && es[k] == y;
            if i == v {
                assert(es[v].tick <= es[k].tick);
            } else {
                assert(d.contains(es[i]));
            }
        }
    }
}

proof fn lemma_until_empty(es: Seq<Entry>, hold: Seq<i32>, temp: bool, done: spec_fn(Seq<Entry>) -> bool)
    requires
        !kv::some_evictable(es, hold, temp),
    ensures
        kv::evicted_until(es, hold, temp, done) == es,
{
}

/// What a run leaves cached: the head, nothing request-scoped, and as much as
/// keeps to half the sequences and half the cells. Nothing goes that there is
/// room for, and of what could stay the least recently used goes first.
pub proof fn law_trimmed(es: Seq<Entry>, n_seq: int, n_ctx: int)
    requires
        kv::entries_ok(es, n_seq),
        0 <= n_seq,
        0 <= n_ctx,
    ensures
        ({
            let r = run::trimmed_of(es, n_seq, n_ctx);
            let small = kv::tally(es, kv::any_entry()) <= n_seq / 2 && kv::cell_sum(es, run::unpinned()) <= n_ctx / 2;
            &&& forall|x: Entry| #[trigger] r.contains(x) ==> es.contains(x)
            &&& forall|x: Entry| #[trigger] es.contains(x) && x.pinned ==> r.contains(x)
            &&& forall|x: Entry| #[trigger] r.contains(x) ==> x.pinned || !x.temp
            &&& kv::tally(r, kv::any_entry()) <= n_seq / 2 && kv::cell_sum(r, run::unpinned()) <= n_ctx / 2
            &&& small && (forall|x: Entry| #[trigger] es.contains(x) ==> x.pinned || !x.temp) ==> r == es
            &&& forall|x: Entry, y: Entry|
                #[trigger] es.contains(x) && !x.temp && !r.contains(x) && #[trigger] r.contains(y) && !y.pinned ==> x.tick
                    <= y.tick
        }),
{
    let none = Seq::<i32>::empty();
    let never = |es: Seq<Entry>| false;
    let done = run::halved(n_seq, n_ctx);
    let m = kv::evicted_until(es, none, true, never);
    let r = run::trimmed_of(es, n_seq, n_ctx);
    law_evicted_until(es, n_seq, none, true, never);
    law_evicted_until(m, n_seq, none, false, done);
    law_some_evictable(m, none, true);
    law_some_evictable(r, none, false);
    law_some_evictable(es, none, true);
    assert(r == kv::evicted_until(m, none, false, done));
    assert forall|x: Entry| #[trigger] r.contains(x) implies x.pinned || !x.temp by {
        assert(m.contains(x));
        let k = choose|k: int| 0 <= k < m.len() && m[k] == x;
        assert(!none.contains(m[k].seq));
    }
    if !done(r) {
        assert forall|k: int| 0 <= k < r.len() implies (#[trigger] r[k]).pinned by {
            assert(!none.contains(r[k].seq));
        }
        lemma_only_pinned(r);
        assert(kv::tally(r, kv::any_entry()) == 0);
        assert(kv::cell_sum(r, run::unpinned()) == 0);
    }
    if kv::tally(es, kv::any_entry()) <= n_seq / 2 && kv::cell_sum(es, run::unpinned()) <= n_ctx / 2 && (forall|x: Entry|
        #[trigger] es.contains(x) ==> x.pinned || !x.temp) {
        if kv::some_evictable(es, none, true) {
            let k = choose|k: int|
                0 <= k < es.len() && !(#[trigger] es[k]).pinned && !none.contains(es[k].seq) && (!true || es[k].temp);
            assert(es.contains(es[k]));
        }
        lemma_until_empty(es, none, true, never);
        assert(done(es));
    }
    assert forall|x: Entry, y: Entry|
        #[trigger] es.contains(x) && !x.temp && !r.contains(x) && #[trigger] r.contains(y) && !y.pinned implies x.tick
        <= y.tick by {
        assert(!kv::evictable(x, none, true));
        assert(m.contains(x));
        assert(kv::evictable(y, none, false));
    }
}

proof fn lemma_only_pinned(es: Seq<Entry>)
    requires
        forall|k: int| 0 <= k < es.len() ==> (#[trigger] es[k]).pinned,
    ensures
        kv::tally(es, kv::any_entry()) == 0,
        kv::cell_sum(es, run::unpinned()) == 0,
    decreases es.len(),
{
    if es.len() > 0 {
        let d = es.drop_last();
        assert forall|k: int| 0 <= k < d.len() implies (#[trigger] d[k]).pinned by {
            assert(es[k].pinned);
        }
        lemma_only_pinned(d);
        assert(es[es.len() - 1].pinned);
    }
}

/// Whatever a prompt forks off is a cached text that it goes on from, the
/// longest there is; where every prompt stands alone, only the head.
pub proof fn law_base(es: Seq<Entry>, toks: Seq<i32>, shared: bool, seq: i32, len: int)
    requires
        kv::is_base(es, toks, shared, seq, len),
        forall|i: int| 0 <= i < es.len() ==> (#[trigger] es[i]).seq >= 0,
    ensures
        seq >= 0 ==> exists|i: int|
            0 <= i < es.len() && (#[trigger] es[i]).seq == seq && len < toks.len() && es[i].toks@ == toks.take(len) && (shared
                || es[i].pinned),
        forall|i: int|
            0 <= i < es.len() && (shared || (#[trigger] es[i]).pinned) && es[i].toks@.len() < toks.len() && es[i].toks@
                == toks.take(es[i].toks@.len() as int) ==> es[i].toks@.len() <= len,
{
    assert forall|i: int|
        0 <= i < es.len() && (shared || (#[trigger] es[i]).pinned) && es[i].toks@.len() < toks.len() && es[i].toks@
            == toks.take(es[i].toks@.len() as int) implies es[i].toks@.len() <= len by {
        assert(es[i].toks@ =~= toks.subrange(0, es[i].toks@.len() as int));
        assert(kv::forkable(es[i], toks, shared));
    }
    if seq >= 0 {
        assert(exists|i: int| 0 <= i < es.len() && kv::forkable(#[trigger] es[i], toks, shared));
        let i = choose|i: int|
            0 <= i < es.len() && kv::forkable(#[trigger] es[i], toks, shared) && es[i].seq == seq && es[i].toks@.len()
                == len && forall|j: int|
                0 <= j < es.len() && kv::forkable(#[trigger] es[j], toks, shared) ==> es[j].toks@.len() <= len;
        assert(es[i].toks@ =~= toks.take(len));
    }
}

/// A hit is a prompt that forks off a text which an earlier request left cached,
/// the head aside; a miss is one whose text to keep goes past what was cached.
pub proof fn law_hits(es: Seq<Entry>, items: Seq<Item>, shared: bool, first: u64, n: int)
    requires
        0 <= n <= items.len(),
    ensures
        run::hits(es, items, first, n) == items.take(n).filter(
            |x: Item|
                exists|i: int| 0 <= i < es.len() && (#[trigger] es[i]).seq == x.base && !es[i].pinned && es[i].born < first,
        ).len(),
        run::misses(items, shared, n) == items.take(n).filter(|x: Item| shared && x.blen < x.keep).len(),
    decreases n,
{
    reveal(Seq::filter);
    if n > 0 {
        law_hits(es, items, shared, first, n - 1);
        assert(items.take(n).drop_last() =~= items.take(n - 1));
        assert(items.take(n).last() == items[n - 1]);
    }
}

/// A wave that ran out of cells is tried again with at most half as many jobs,
/// and at least one.
pub proof fn law_smaller(limit: int, left: int)
    requires
        limit >= 1,
        left >= 1,
    ensures
        1 <= run::smaller(limit, left) <= limit,
        run::smaller(limit, left) <= left,
        limit > 1 && left > 1 ==> run::smaller(limit, left) * 2 <= left && run::smaller(limit, left) * 2 <= limit,
{
}

/// The prompts of the first `n` items, each by what it forks off and its text.
pub open spec fn prompts_of(s: Seq<Item>, n: int) -> Set<(i32, Seq<i32>)> {
    Set::new(|p: (i32, Seq<i32>)| exists|k: int| 0 <= k < n && (#[trigger] s[k]).base == p.0 && s[k].toks@ == p.1)
}

/// In shared mode, prompts alike are decoded on one sequence; alone, every
/// prompt has its own.
pub proof fn law_works(s: Seq<Item>, n: int)
    requires
        plan::in_order(s),
        0 <= n <= s.len(),
    ensures
        prompts_of(s, n).finite(),
        plan::works(s, true, n) == prompts_of(s, n).len(),
        plan::works(s, false, n) == n,
    decreases n,
{
    if n == 0 {
        assert(prompts_of(s, n) =~= Set::empty());
    } else {
        law_works(s, n - 1);
        let x = s[n - 1];
        let p = (x.base, x.toks@);
        let a = prompts_of(s, n - 1);
        assert(prompts_of(s, n) =~= a.insert(p)) by {
            assert forall|q: (i32, Seq<i32>)| prompts_of(s, n).contains(q) <==> a.insert(p).contains(q) by {
                if prompts_of(s, n).contains(q) && !a.contains(q) {
                    let k = choose|k: int| 0 <= k < n && (#[trigger] s[k]).base == q.0 && s[k].toks@ == q.1;
                    if k < n - 1 {
                        assert(a.contains(q));
                    }
                }
                if a.contains(q) {
                    let k = choose|k: int| 0 <= k < n - 1 && (#[trigger] s[k]).base == q.0 && s[k].toks@ == q.1;
                    assert(s[k].base == q.0);
                }
                if q == p {
                    assert(s[n - 1].base == q.0);
                }
            }
        }
        if a.contains(p) {
            let k = choose|k: int| 0 <= k < n - 1 && (#[trigger] s[k]).base == p.0 && s[k].toks@ == p.1;
            let (u, v) = (s[k], s[n - 2]);
            assert(plan::item_le(u, v));
            assert(plan::item_le(v, x));
            prefix::lemma_lex_antisymmetric(v.toks@, x.toks@);
            assert(plan::repeats(s, true, n - 1));
        } else if plan::repeats(s, true, n - 1) {
            assert(s[n - 2].base == p.0 && s[n - 2].toks@ == p.1);
            assert(a.contains(p));
        }
    }
}

/// A wave leaves the texts that it forked off as the ones used last, all others
/// as they were, and every text that it keeps in an entry of its own.
pub proof fn law_just_used(a: Seq<Entry>, b: Seq<Entry>, spans: Seq<Span>, seqs: Seq<i32>, mine: Seq<i32>, tick: u64)
    requires
        run::recached(a, b, spans, seqs, mine, tick),
    ensures
        b.len() == a.len() + spans.len(),
        forall|i: int|
            0 <= i < a.len() ==> (#[trigger] b[i]).toks@ == a[i].toks@ && b[i].seq == a[i].seq && b[i].pinned == a[i].pinned
                && b[i].temp == a[i].temp && b[i].cells == a[i].cells && b[i].born == a[i].born,
        forall|i: int| 0 <= i < a.len() && mine.contains((#[trigger] a[i]).seq) ==> b[i].tick == tick,
        forall|i: int| 0 <= i < a.len() && !mine.contains((#[trigger] a[i]).seq) ==> b[i].tick == a[i].tick,
        forall|t: int|
            0 <= t < spans.len() ==> (#[trigger] b[a.len() + t]).toks@ == spans[t].toks@ && b[a.len() + t].seq == seqs[t]
                && b[a.len() + t].tick == tick && b[a.len() + t].born == tick && !b[a.len() + t].pinned && b[a.len() + t].temp
                == spans[t].temp && b[a.len() + t].cells == spans[t].toks@.len() - spans[t].blen,
{
    let c = b.take(a.len() as int);
    assert forall|i: int| 0 <= i < a.len() implies c[i] == b[i] by {}
}

/// What a prompt asks to keep is kept just as it asks, where prompts share, it
/// goes past what is cached, and it forks off nothing but the head.
pub proof fn law_keep(s: Seq<Item>, k: int)
    requires
        0 <= k < s.len(),
    ensures
        plan::keep_of(s, false, k) is None,
        plan::keep_of(s, true, k) matches Some(t) ==> t == s[k].toks@.take(s[k].keep as int) && t.len() > s[k].blen && t.len()
            < s[k].toks@.len(),
        s[k].base <= 0 && s[k].blen < s[k].keep && s[k].keep < s[k].toks@.len() ==> plan::keep_of(s, true, k) is Some,
{
}

/// Room for a wave is made next to the head and the texts that the wave itself
/// forks off: none of those goes.
pub proof fn law_roomed(o: &Kv, items: Seq<Item>, p: Plan, e: Entry)
    requires
        kv::entries_ok(o.entries@, o.n_seq as int),
        0 <= p.n <= items.len(),
        o.entries@.contains(e),
        e.pinned || exists|k: int| 0 <= k < p.n && (#[trigger] items[k]).base == e.seq,
    ensures
        wave::roomed(o, items, p).contains(e),
{
    let done = wave::room_for(o.n_seq as int, o.n_ctx as int, p.works as int, p.spans@.len() as int, p.cells as int);
    let (wanted, mine) = (kv::bases(items, items.len() as int), kv::bases(items, p.n as int));
    if !e.pinned {
        let k = choose|k: int| 0 <= k < p.n && (#[trigger] items[k]).base == e.seq;
        assert(wanted[k] == e.seq);
        assert(mine[k] == e.seq);
    }
    let m = kv::evicted_until(o.entries@, wanted, false, done);
    law_evicted_until(o.entries@, o.n_seq as int, wanted, false, done);
    law_evicted_until(m, o.n_seq as int, mine, false, done);
    assert(!kv::evictable(e, wanted, false));
    assert(m.contains(e));
    assert(!kv::evictable(e, mine, false));
}

/// A wave for which there is room fits: its sequences and those of the cache into
/// all but the head's, its cells and those of the cache into the context.
pub proof fn law_room(n_seq: int, n_ctx: int, works: int, spans: int, cells: int, es: Seq<Entry>)
    requires
        wave::room_for(n_seq, n_ctx, works, spans, cells)(es),
    ensures
        kv::tally(es, kv::any_entry()) + works + spans < n_seq,
        kv::cell_sum(es, kv::any_entry()) + cells <= n_ctx,
{
}

/// What a wave may take leaves the head and every text that a pending prompt
/// forks off in place.
pub proof fn law_caps(o: &Kv, items: Seq<Item>)
    ensures
        wave::seq_cap(o, items) + kv::tally(o.entries@, kv::on_any(kv::bases(items, items.len() as int))) < o.n_seq,
        wave::cell_cap(o, items) > 0 ==> wave::cell_cap(o, items) + kv::cell_sum(
            o.entries@,
            kv::head_or_on(kv::bases(items, items.len() as int)),
        ) <= o.n_ctx,
        wave::cell_cap(o, items) >= 0,
{
}

} // verus!
