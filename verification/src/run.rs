//! Running jobs: waves of them until all are answered, then the cache trimmed
//! to its budgets.
use vstd::prelude::*;
use vstd::slice::slice_to_vec;

use crate::calls;
use crate::calls::Call;
use crate::kv;
use crate::kv::{Backend, Dec, DecodeError, Entry, Job, Kv};
use crate::ledger::Ledger;
use crate::memory;
use crate::plan;
use crate::plan::{Item, Plan, Span};
use crate::wave;
use crate::weave;
use crate::weave::Seats;
use crate::weight;

verus! {

/// Each base an item of the wave forks off is an entry that holds just that.
pub open spec fn rooted(es: Seq<Entry>, items: Seq<Item>, n: int) -> bool {
    forall|k: int|
        0 <= k < n ==> (#[trigger] items[k]).base == -1 && items[k].blen == 0 || items[k].base >= 0 && exists|i: int|
            0 <= i < es.len() && (#[trigger] es[i]).seq == items[k].base && es[i].toks@ == wave::stem(items[k])
}

/// `free` are the sequences past 0 that no entry sits on.
pub open spec fn all_free(kv: &Kv, free: Seq<i32>) -> bool {
    forall|s: i32| #[trigger] free.contains(s) <==> 1 <= s < kv.n_seq && !kv::taken(kv.entries@, s)
}

/// The sequences given out, each once.
fn seats_list(items: &Vec<Item>, st: &Seats) -> (r: Vec<i32>)
    requires
        st.ok(items@),
    ensures
        forall|s: i32| #[trigger] r@.contains(s) <==> st.seqs().contains(s),
{
    let mut r: Vec<i32> = Vec::new();
    let mut k: usize = 0;
    while k < st.n
        invariant
            st.ok(items@),
            k <= st.n,
            k > 0 ==> r@.contains(st.seq_of@[k - 1]),
            forall|s: i32| #[trigger] r@.contains(s) <==> st.seq_of@.take(k as int).contains(s),
        decreases st.n - k,
    {
        let s: i32 = st.seq_of[k];
        let ghost before = r@;
        if k == 0 || st.seq_of[k - 1] != s {
            r.push(s);
            proof {
                assert(r@[before.len() as int] == s);
            }
        }
        proof {
            let (a, b) = (st.seq_of@.take(k as int), st.seq_of@.take(k + 1));
            assert(b =~= a.push(s));
            assert(b[k as int] == s);
            assert forall|x: i32| #[trigger] r@.contains(x) <==> b.contains(x) by {
                lemma_push_contains(a, s, x);
                if r@.len() > before.len() {
                    lemma_push_contains(before, s, x);
                }
            }
        }
        k += 1;
    }
    proof {
        assert(st.seq_of@.take(k as int) =~= st.seq_of@);
    }
    let mut t: usize = 0;
    while t < st.span_seqs.len()
        invariant
            t <= st.span_seqs@.len(),
            forall|s: i32| #[trigger]
                r@.contains(s) <==> st.seq_of@.contains(s) || st.span_seqs@.take(t as int).contains(s),
        decreases st.span_seqs@.len() - t,
    {
        let s: i32 = st.span_seqs[t];
        let ghost before = r@;
        r.push(s);
        proof {
            let (a, b) = (st.span_seqs@.take(t as int), st.span_seqs@.take(t + 1));
            assert(b =~= a.push(s));
            assert forall|x: i32| #[trigger] r@.contains(x) <==> st.seq_of@.contains(x) || b.contains(x) by {
                lemma_push_contains(a, s, x);
                lemma_push_contains(before, s, x);
            }
        }
        t += 1;
    }
    proof {
        assert(st.span_seqs@.take(t as int) =~= st.span_seqs@);
    }
    r
}

proof fn lemma_push_contains(a: Seq<i32>, s: i32, x: i32)
    ensures
        a.push(s).contains(x) <==> a.contains(x) || x == s,
{
    if a.contains(x) {
        let k = choose|k: int| 0 <= k < a.len() && a[k] == x;
        assert(a.push(s)[k] == x);
    }
    assert(a.push(s)[a.len() as int] == s);
}

/// Seed every sequence given out with a whole copy of its base.
fn seed<B: Backend>(kv: &mut Kv, b: &mut B, items: &Vec<Item>, st: &Seats)
    requires
        old(kv).settled(),
        old(kv).ledger.dirty@ == Set::<i32>::empty(),
        st.ok(items@),
        plan::forked(items@),
        plan::same_base(items@),
        wave::one_stem(items@),
        all_free(old(kv), st.free@),
        rooted(old(kv).entries@, items@, st.n as int),
    ensures
        calls::follows(old(b).told(), final(b).told(), old(kv).ledger.model(), final(kv).ledger.model()),
        final(kv).wf(),
        final(kv).same_run(old(kv)),
        final(kv).entries@ == old(kv).entries@,
        final(kv).ledger.dirty@ == Set::<i32>::empty(),
        forall|s: i32| #[trigger] final(kv).scratch@.contains(s) <==> st.seqs().contains(s),
        st.seeded(final(kv).ledger.held@, items@),
        forall|s: i32| !st.seqs().contains(s) ==> #[trigger] final(kv).ledger.held@[s] == old(kv).ledger.held@[s],
        forall|s: i32| #[trigger] st.seqs().contains(s) ==> 1 <= s < old(kv).n_seq && !kv::taken(old(kv).entries@, s),
{
    let ghost m0 = kv.ledger.held@;
    let ghost es = kv.entries@;
    let ghost (t0, l0) = (b.told(), kv.ledger.model());
    let list: Vec<i32> = seats_list(items, st);
    proof {
        calls::lemma_idle(t0, l0);
        wave::lemma_seated(
            items@,
            st.shared,
            st.n as int,
            st.spans@.len() as int,
            st.free@,
            st.seq_of@,
            st.span_seqs@,
        );
        assert forall|s: i32| #[trigger] st.seqs().contains(s) implies 1 <= s < kv.n_seq && !kv::taken(es, s) by {
            if st.seq_of@.contains(s) {
                let k = choose|k: int| 0 <= k < st.seq_of@.len() && st.seq_of@[k] == s;
                assert(st.free@.contains(st.seq_of@[k]));
            } else {
                let t = choose|t: int| 0 <= t < st.span_seqs@.len() && st.span_seqs@[t] == s;
                assert(st.free@.contains(st.span_seqs@[t]));
            }
        }
    }
    kv.scratch = list;
    let mut k: usize = 0;
    while k < st.n
        invariant
            st.ok(items@),
            plan::forked(items@),
            plan::same_base(items@),
            wave::one_stem(items@),
            rooted(es, items@, st.n as int),
            k <= st.n <= items@.len(),
            kv.same_run(old(kv)),
            kv.n_seq == old(kv).n_seq,
            kv.ledger.n_seq == kv.n_seq,
            kv.entries@ == es,
            old(kv).settled(),
            es == old(kv).entries@,
            m0 == old(kv).ledger.held@,
            t0 == old(b).told(),
            l0 == old(kv).ledger.model(),
            calls::follows(t0, b.told(), l0, kv.ledger.model()),
            kv.ledger.dirty@ == Set::<i32>::empty(),
            kv.scratch@ == list@,
            forall|s: i32| #[trigger] list@.contains(s) <==> st.seqs().contains(s),
            forall|s: i32| #[trigger] st.seqs().contains(s) ==> 1 <= s < kv.n_seq && !kv::taken(es, s),
            forall|i: int| 0 <= i < k ==> kv.ledger.held@[#[trigger] st.seq_of@[i]] == wave::stem(items@[i]),
            forall|s: i32|
                !st.seq_of@.take(k as int).contains(s) ==> #[trigger] kv.ledger.held@[s] == m0[s],
        decreases st.n - k,
    {
        let s: i32 = st.seq_of[k];
        let x: Item = items[k];
        let fresh: bool = k == 0 || st.seq_of[k - 1] != s;
        proof {
            wave::lemma_seated(
                items@,
                st.shared,
                st.n as int,
                st.spans@.len() as int,
                st.free@,
                st.seq_of@,
                st.span_seqs@,
            );
            assert(st.seq_of@.contains(s));
            assert(st.seqs().contains(s));
            assert(st.seq_of@.take(k + 1) =~= st.seq_of@.take(k as int).push(s));
            lemma_fresh_seat(items@, st, k as int);
            assert(m0[s] == Seq::<i32>::empty());
        }
        let ghost m1 = kv.ledger.held@;
        if fresh && x.base >= 0 {
            proof {
                let i = choose|i: int|
                    0 <= i < es.len() && (#[trigger] es[i]).seq == x.base && es[i].toks@ == wave::stem(x);
                assert(kv::taken(es, x.base));
                assert(!st.seqs().contains(x.base));
                if st.seq_of@.take(k as int).contains(x.base) {
                    let y = choose|y: int| 0 <= y < k && st.seq_of@.take(k as int)[y] == x.base;
                    assert(st.seq_of@.contains(st.seq_of@[y]));
                }
                assert(m0[es[i].seq] == es[i].toks@);
                assert(m1[x.base] == wave::stem(x));
                assert(m1[s] == m0[s]);
            }
            let ghost (t1, l1) = (b.told(), kv.ledger.model());
            kv.ledger.cp(b, x.base, s, x.blen);
            proof {
                calls::lemma_call(t0, t1, l0, l1, Call::Cp { src: x.base, dst: s, len: x.blen });
            }
        }
        proof {
            let m2 = kv.ledger.held@;
            assert(m2[s] == wave::stem(x)) by {
                if !fresh {
                    assert(plan::works(items@, st.shared, k as int) == plan::works(items@, st.shared, k + 1));
                    assert(plan::repeats(items@, st.shared, k as int));
                    assert(m1[st.seq_of@[k - 1]] == wave::stem(items@[k - 1]));
                    assert(items@[k - 1].base == items@[k as int].base);
                } else if x.base < 0 {
                    assert(m1[s] == m0[s]);
                    assert(wave::stem(x) =~= Seq::empty());
                }
            }
            assert forall|i: int| 0 <= i < k + 1 implies m2[#[trigger] st.seq_of@[i]] == wave::stem(items@[i]) by {
                if i < k {
                    assert(m1[st.seq_of@[i]] == wave::stem(items@[i]));
                    if fresh {
                        assert(st.seq_of@.take(k as int)[i] == st.seq_of@[i]);
                        assert(st.seq_of@[i] != s);
                    }
                }
            }
            assert forall|z: i32| !st.seq_of@.take(k + 1).contains(z) implies #[trigger] m2[z] == m0[z] by {
                lemma_push_contains(st.seq_of@.take(k as int), s, z);
                assert(m1[z] == m0[z]);
            }
        }
        k += 1;
    }
    proof {
        assert(st.seq_of@.take(k as int) =~= st.seq_of@);
    }
    let mut t: usize = 0;
    while t < st.spans.len()
        invariant
            st.ok(items@),
            rooted(es, items@, st.n as int),
            t <= st.spans@.len(),
            kv.same_run(old(kv)),
            kv.n_seq == old(kv).n_seq,
            kv.ledger.n_seq == kv.n_seq,
            kv.entries@ == es,
            old(kv).settled(),
            es == old(kv).entries@,
            m0 == old(kv).ledger.held@,
            t0 == old(b).told(),
            l0 == old(kv).ledger.model(),
            calls::follows(t0, b.told(), l0, kv.ledger.model()),
            kv.ledger.dirty@ == Set::<i32>::empty(),
            kv.scratch@ == list@,
            forall|s: i32| #[trigger] list@.contains(s) <==> st.seqs().contains(s),
            forall|s: i32| #[trigger] st.seqs().contains(s) ==> 1 <= s < kv.n_seq && !kv::taken(es, s),
            forall|i: int| 0 <= i < st.n ==> kv.ledger.held@[#[trigger] st.seq_of@[i]] == wave::stem(items@[i]),
            forall|i: int|
                0 <= i < t ==> kv.ledger.held@[#[trigger] st.span_seqs@[i]] == st.spans@[i].toks@.take(
                    st.spans@[i].blen as int,
                ),
            forall|s: i32|
                !st.seq_of@.contains(s) && !st.span_seqs@.take(t as int).contains(s) ==> #[trigger] kv.ledger.held@[s]
                    == m0[s],
        decreases st.spans@.len() - t,
    {
        let s: i32 = st.span_seqs[t];
        let sp: Span = st.spans[t];
        let ghost m1 = kv.ledger.held@;
        proof {
            wave::lemma_seated(
                items@,
                st.shared,
                st.n as int,
                st.spans@.len() as int,
                st.free@,
                st.seq_of@,
                st.span_seqs@,
            );
            assert(st.span_seqs@.contains(s));
            assert(st.seqs().contains(s));
            assert(st.span_seqs@.take(t + 1) =~= st.span_seqs@.take(t as int).push(s));
            if st.seq_of@.contains(s) {
                let y = choose|y: int| 0 <= y < st.seq_of@.len() && st.seq_of@[y] == s;
                assert(st.seq_of@[y] != st.span_seqs@[t as int]);
            }
            if st.span_seqs@.take(t as int).contains(s) {
                let y = choose|y: int| 0 <= y < t && st.span_seqs@.take(t as int)[y] == s;
                assert(st.span_seqs@[y] != st.span_seqs@[t as int]);
            }
            assert(m1[s] == m0[s]);
            assert(m0[s] == Seq::<i32>::empty());
            lemma_span_root(es, items@, st, t as int);
        }
        if sp.base >= 0 {
            proof {
                let i = choose|i: int|
                    0 <= i < es.len() && (#[trigger] es[i]).seq == sp.base && es[i].toks@ == sp.toks@.take(sp.blen as int);
                assert(kv::taken(es, sp.base));
                assert(!st.seqs().contains(sp.base));
                if st.span_seqs@.take(t as int).contains(sp.base) {
                    let y = choose|y: int| 0 <= y < t && st.span_seqs@.take(t as int)[y] == sp.base;
                    assert(st.span_seqs@.contains(st.span_seqs@[y]));
                }
                assert(m0[es[i].seq] == es[i].toks@);
                assert(m1[sp.base] == m0[sp.base]);
                assert(m1[sp.base].len() == sp.blen);
            }
            let ghost (t1, l1) = (b.told(), kv.ledger.model());
            kv.ledger.cp(b, sp.base, s, sp.blen);
            proof {
                calls::lemma_call(t0, t1, l0, l1, Call::Cp { src: sp.base, dst: s, len: sp.blen });
            }
        }
        proof {
            let m2 = kv.ledger.held@;
            if sp.base < 0 {
                assert(sp.toks@.take(sp.blen as int) =~= Seq::empty());
            }
            assert(m2[s] == sp.toks@.take(sp.blen as int));
            assert forall|i: int| 0 <= i < st.n implies m2[#[trigger] st.seq_of@[i]] == wave::stem(items@[i]) by {
                assert(st.seq_of@[i] != st.span_seqs@[t as int]);
            }
            assert forall|i: int| 0 <= i < t + 1 implies m2[#[trigger] st.span_seqs@[i]] == st.spans@[i].toks@.take(
                st.spans@[i].blen as int,
            ) by {
                if i < t {
                    assert(st.span_seqs@[i] != st.span_seqs@[t as int]);
                }
            }
            assert forall|z: i32|
                !st.seq_of@.contains(z) && !st.span_seqs@.take(t + 1).contains(z) implies #[trigger] m2[z] == m0[z] by {
                lemma_push_contains(st.span_seqs@.take(t as int), s, z);
                assert(m1[z] == m0[z]);
            }
        }
        t += 1;
    }
    proof {
        assert(st.span_seqs@.take(t as int) =~= st.span_seqs@);
        let m2 = kv.ledger.held@;
        assert forall|s: i32| !st.seqs().contains(s) implies #[trigger] m2[s] == m0[s] by {}
        assert forall|i: int| 0 <= i < es.len() implies m2[(#[trigger] es[i]).seq] == es[i].toks@ by {
            assert(kv::taken(es, es[i].seq));
            assert(m0[es[i].seq] == es[i].toks@);
        }
        assert forall|s: i32| !kv::taken(es, s) && !kv.scratch@.contains(s) implies #[trigger] m2[s] == Seq::<i32>::empty() by {
            assert(m0[s] == Seq::<i32>::empty());
        }
    }
}

/// An item that doesn't repeat the one before it sits on a sequence no earlier
/// item has.
proof fn lemma_fresh_seat(items: Seq<Item>, st: &Seats, k: int)
    requires
        st.ok(items),
        0 <= k < st.n,
    ensures
        k > 0 ==> (st.seq_of@[k - 1] == st.seq_of@[k] <==> plan::repeats(items, st.shared, k)),
        k == 0 || st.seq_of@[k - 1] != st.seq_of@[k] ==> !st.seq_of@.take(k).contains(st.seq_of@[k]),
{
    let n = st.n as int;
    wave::lemma_seated(items, st.shared, n, st.spans@.len() as int, st.free@, st.seq_of@, st.span_seqs@);
    if k > 0 {
        assert(st.seq_of@[k - 1] == st.seq_of@[k] <==> plan::works(items, st.shared, k) == plan::works(
            items,
            st.shared,
            k + 1,
        ));
        if st.seq_of@[k - 1] != st.seq_of@[k] && st.seq_of@.take(k).contains(st.seq_of@[k]) {
            let y = choose|y: int| 0 <= y < k && st.seq_of@.take(k)[y] == st.seq_of@[k];
            wave::lemma_works_monotone(items, st.shared, y + 1, k);
            assert(st.seq_of@[y] == st.seq_of@[k] <==> plan::works(items, st.shared, y + 1) == plan::works(
                items,
                st.shared,
                k + 1,
            ));
        }
    }
}

/// A span forks off an entry that holds just its base.
proof fn lemma_span_root(es: Seq<Entry>, items: Seq<Item>, st: &Seats, t: int)
    requires
        st.ok(items),
        rooted(es, items, st.n as int),
        0 <= t < st.spans@.len(),
    ensures
        st.spans@[t].base == -1 && st.spans@[t].blen == 0 || st.spans@[t].base >= 0 && exists|i: int|
            0 <= i < es.len() && (#[trigger] es[i]).seq == st.spans@[t].base && es[i].toks@ == st.spans@[t].toks@.take(
                st.spans@[t].blen as int,
            ),
        st.spans@[t].blen < st.spans@[t].toks@.len(),
{
    let sp = st.spans@[t];
    let k = choose|k: int| 0 <= k < st.n && plan::cut_from(#[trigger] items[k], sp);
    assert(sp.toks@ =~= items[k].toks@.subrange(0, sp.toks@.len() as int));
    assert(wave::stem(items[k]) =~= sp.toks@.take(sp.blen as int));
}

/// Counts over one run.
#[derive(Clone, Copy, Debug)]
pub struct Stats {
    /// tokens actually decoded (KV cells written)
    pub decoded: usize,
    pub waves: usize,
    /// jobs that forked off a span cached by an earlier request
    pub hits: usize,
    /// jobs whose keep span had to be decoded
    pub misses: usize,
}

/// Why a run stopped.
pub enum KvError {
    /// a prompt is empty or longer than the context
    Prompt { tokens: usize, ctx: usize },
    /// a lone prompt found no room next to the head
    Unfit { tokens: usize, ctx: usize },
    Decode(DecodeError),
}

/// Calls that remove every sequence of `ss`.
pub open spec fn removals(ss: Seq<i32>) -> Seq<Call> {
    ss.map_values(|s: i32| Call::Rm(s))
}

/// Remove every sequence of `ss`.
fn wipe<B: Backend>(l: &mut Ledger, b: &mut B, ss: &Vec<i32>)
    requires
        forall|i: int| 0 <= i < ss@.len() ==> old(l).has(#[trigger] ss@[i]),
    ensures
        final(b).told() == old(b).told() + removals(ss@),
        calls::follows(old(b).told(), final(b).told(), old(l).model(), final(l).model()),
        final(l).same_tally(old(l)),
        forall|s: i32| #[trigger]
            final(l).held@[s] == if ss@.contains(s) {
                Seq::<i32>::empty()
            } else {
                old(l).held@[s]
            },
        forall|s: i32| #[trigger] final(l).dirty@.contains(s) <==> old(l).dirty@.contains(s) && !ss@.contains(s),
{
    let mut i: usize = 0;
    let ghost (t0, l0) = (b.told(), l.model());
    proof {
        calls::lemma_idle(t0, l0);
        assert(t0 + removals(ss@.take(0)) =~= t0);
    }
    while i < ss.len()
        invariant
            i <= ss@.len(),
            t0 == old(b).told(),
            l0 == old(l).model(),
            b.told() == t0 + removals(ss@.take(i as int)),
            calls::follows(t0, b.told(), l0, l.model()),
            forall|k: int| 0 <= k < ss@.len() ==> old(l).has(#[trigger] ss@[k]),
            l.same_tally(old(l)),
            forall|s: i32| #[trigger]
                l.held@[s] == if ss@.take(i as int).contains(s) {
                    Seq::<i32>::empty()
                } else {
                    old(l).held@[s]
                },
            forall|s: i32| #[trigger]
                l.dirty@.contains(s) <==> old(l).dirty@.contains(s) && !ss@.take(i as int).contains(s),
        decreases ss@.len() - i,
    {
        let s: i32 = ss[i];
        let ghost (t1, l1) = (b.told(), l.model());
        l.rm(b, s);
        proof {
            calls::lemma_call(t0, t1, l0, l1, Call::Rm(s));
            assert(ss@.take(i + 1) =~= ss@.take(i as int).push(s));
            assert(t0 + removals(ss@.take(i + 1)) =~= (t0 + removals(ss@.take(i as int))).push(Call::Rm(s)));
            assert forall|x: i32| #[trigger] ss@.take(i + 1).contains(x) <==> ss@.take(i as int).contains(x) || x == s by {
                lemma_push_contains(ss@.take(i as int), s, x);
            }
            assert forall|x: i32| #[trigger]
                l.held@[x] == if ss@.take(i + 1).contains(x) {
                    Seq::<i32>::empty()
                } else {
                    old(l).held@[x]
                } by {
                assert(ss@.take(i + 1).contains(x) <==> ss@.take(i as int).contains(x) || x == s);
            }
            assert forall|x: i32| #[trigger]
                l.dirty@.contains(x) <==> old(l).dirty@.contains(x) && !ss@.take(i + 1).contains(x) by {
                assert(ss@.take(i + 1).contains(x) <==> ss@.take(i as int).contains(x) || x == s);
            }
        }
        i += 1;
    }
    proof {
        assert(ss@.take(i as int) =~= ss@);
    }
}

/// The entry span `t` leaves on sequence `s`.
pub open spec fn is_entry_of(e: Entry, t: Span, s: i32, tick: u64) -> bool {
    &&& e.toks@ == t.toks@
    &&& e.seq == s
    &&& e.cells == t.toks@.len() - t.blen
    &&& e.tick == tick
    &&& e.born == tick
    &&& !e.pinned
    &&& e.temp == t.temp
}

/// Add an entry for every span of the wave.
fn enter(es: &mut Vec<Entry>, st: &Seats, tick: u64)
    requires
        st.span_seqs@.len() == st.spans@.len(),
        forall|t: int| 0 <= t < st.spans@.len() ==> (#[trigger] st.spans@[t]).blen < st.spans@[t].toks@.len(),
    ensures
        final(es)@.len() == old(es)@.len() + st.spans@.len(),
        final(es)@.take(old(es)@.len() as int) == old(es)@,
        forall|t: int|
            0 <= t < st.spans@.len() ==> is_entry_of(
                #[trigger] final(es)@[old(es)@.len() + t],
                st.spans@[t],
                st.span_seqs@[t],
                tick,
            ),
{
    let mut t: usize = 0;
    let ghost n = es@.len();
    proof {
        assert(es@.take(n as int) =~= old(es)@);
    }
    while t < st.spans.len()
        invariant
            t <= st.spans@.len(),
            n == old(es)@.len(),
            st.span_seqs@.len() == st.spans@.len(),
            forall|i: int| 0 <= i < st.spans@.len() ==> (#[trigger] st.spans@[i]).blen < st.spans@[i].toks@.len(),
            es@.len() == n + t,
            es@.take(n as int) == old(es)@,
            forall|i: int|
                0 <= i < t ==> is_entry_of(#[trigger] es@[n + i], st.spans@[i], st.span_seqs@[i], tick),
        decreases st.spans@.len() - t,
    {
        let sp: Span = st.spans[t];
        let ghost before = es@;
        es.push(
            Entry {
                toks: slice_to_vec(sp.toks),
                seq: st.span_seqs[t],
                cells: sp.toks.len() - sp.blen,
                tick,
                born: tick,
                pinned: false,
                temp: sp.temp,
            },
        );
        proof {
            assert(es@.take(n as int) =~= before.take(n as int));
        }
        t += 1;
    }
}

/// `b` is `a` but for the ticks of entries on a sequence of `mine`.
pub open spec fn ticked(a: Seq<Entry>, b: Seq<Entry>, mine: Seq<i32>, tick: u64) -> bool {
    &&& b.len() == a.len()
    &&& forall|i: int|
        0 <= i < a.len() ==> {
            let (x, y) = (a[i], #[trigger] b[i]);
            &&& y.toks == x.toks
            &&& y.seq == x.seq
            &&& y.cells == x.cells
            &&& y.born == x.born
            &&& y.pinned == x.pinned
            &&& y.temp == x.temp
            &&& y.tick == if mine.contains(x.seq) {
                tick
            } else {
                x.tick
            }
        }
}

/// Mark the entries the wave forked from as just used.
fn touch(es: &mut Vec<Entry>, mine: &Vec<i32>, tick: u64)
    ensures
        ticked(old(es)@, final(es)@, mine@, tick),
{
    let mut i: usize = 0;
    while i < es.len()
        invariant
            i <= es@.len(),
            es@.len() == old(es)@.len(),
            forall|k: int| i <= k < es@.len() ==> #[trigger] es@[k] == old(es)@[k],
            ticked(old(es)@.take(i as int), es@.take(i as int), mine@, tick),
        decreases es@.len() - i,
    {
        let ghost before = es@;
        if kv::contains(mine, es[i].seq) {
            es[i].tick = tick;
        }
        i += 1;
        proof {
            let (a, b) = (old(es)@.take(i as int), es@.take(i as int));
            assert forall|k: int| 0 <= k < a.len() implies {
                let (x, y) = (a[k], #[trigger] b[k]);
                &&& y.toks == x.toks
                &&& y.seq == x.seq
                &&& y.cells == x.cells
                &&& y.born == x.born
                &&& y.pinned == x.pinned
                &&& y.temp == x.temp
                &&& y.tick == if mine@.contains(x.seq) {
                    tick
                } else {
                    x.tick
                }
            } by {
                if k < i - 1 {
                    assert(before.take(i - 1)[k] == before[k]);
                    assert(old(es)@.take(i - 1)[k] == a[k]);
                }
            }
        }
    }
    proof {
        assert(es@.take(i as int) =~= es@);
        assert(old(es)@.take(i as int) =~= old(es)@);
    }
}

/// Entry sequences, spans and pins of `a` are those of `b`.
proof fn lemma_ticked(a: Seq<Entry>, b: Seq<Entry>, mine: Seq<i32>, tick: u64, n_seq: int)
    requires
        ticked(a, b, mine, tick),
        kv::entries_ok(a, n_seq),
    ensures
        kv::entries_ok(b, n_seq),
        kv::tally(b, kv::any_entry()) == kv::tally(a, kv::any_entry()),
        forall|s: i32| #[trigger] kv::taken(b, s) <==> kv::taken(a, s),
{
    assert forall|i: int| 0 <= i < b.len() implies 0 <= (#[trigger] b[i]).seq < n_seq && (b[i].pinned <==> b[i].seq == 0)
        && b[i].toks@.len() > 0 by {
        assert(a[i].seq == b[i].seq);
    }
    assert forall|i: int, j: int| 0 <= i < j < b.len() implies (#[trigger] b[i]).seq != (#[trigger] b[j]).seq && b[i].toks@
        != b[j].toks@ by {
        assert(a[i].seq != a[j].seq && a[i].toks@ != a[j].toks@);
    }
    assert forall|s: i32| #[trigger] kv::taken(b, s) <==> kv::taken(a, s) by {
        if kv::taken(a, s) {
            let i = choose|i: int| 0 <= i < a.len() && (#[trigger] a[i]).seq == s;
            assert(b[i].seq == s);
        }
        if kv::taken(b, s) {
            let i = choose|i: int| 0 <= i < b.len() && (#[trigger] b[i]).seq == s;
            assert(a[i].seq == s);
        }
    }
    lemma_same_pins(a, b);
}

proof fn lemma_same_pins(a: Seq<Entry>, b: Seq<Entry>)
    requires
        a.len() == b.len(),
        forall|i: int| 0 <= i < a.len() ==> (#[trigger] a[i]).pinned == b[i].pinned,
    ensures
        kv::tally(a, kv::any_entry()) == kv::tally(b, kv::any_entry()),
    decreases a.len(),
{
    if a.len() > 0 {
        assert forall|i: int| 0 <= i < a.drop_last().len() implies (#[trigger] a.drop_last()[i]).pinned
            == b.drop_last()[i].pinned by {
            assert(a[i].pinned == b[i].pinned);
        }
        lemma_same_pins(a.drop_last(), b.drop_last());
        assert(a[a.len() - 1].pinned == b[b.len() - 1].pinned);
    }
}

proof fn lemma_grown_tally(es: Seq<Entry>, n: int)
    requires
        0 <= n <= es.len(),
        forall|i: int| n <= i < es.len() ==> !(#[trigger] es[i]).pinned,
    ensures
        kv::tally(es, kv::any_entry()) == kv::tally(es.take(n), kv::any_entry()) + (es.len() - n),
    decreases es.len(),
{
    if es.len() == n {
        assert(es.take(n) =~= es);
    } else {
        let d = es.drop_last();
        assert forall|i: int| n <= i < d.len() implies !(#[trigger] d[i]).pinned by {
            assert(!es[i].pinned);
        }
        lemma_grown_tally(d, n);
        assert(d.take(n) =~= es.take(n));
        assert(!es[es.len() - 1].pinned);
    }
}

/// The cache after a wave: its entries, and a new one for every span.
proof fn lemma_entered(
    es: Seq<Entry>,
    es2: Seq<Entry>,
    n_seq: int,
    old_es: Seq<Entry>,
    jobs: Seq<Job>,
    items: Seq<Item>,
    st: &Seats,
    tick: u64,
)
    requires
        kv::entries_ok(es, n_seq),
        kv::among(es, old_es),
        st.ok(items),
        forall|k: int| 0 <= k < items.len() ==> kv::item_ok(jobs, old_es, st.shared, #[trigger] items[k]),
        forall|s: i32| #[trigger] st.seqs().contains(s) ==> 1 <= s < n_seq && !kv::taken(es, s),
        es2.len() == es.len() + st.spans@.len(),
        es2.take(es.len() as int) == es,
        forall|t: int|
            0 <= t < st.spans@.len() ==> is_entry_of(
                #[trigger] es2[es.len() + t],
                st.spans@[t],
                st.span_seqs@[t],
                tick,
            ),
    ensures
        kv::entries_ok(es2, n_seq),
        kv::tally(es2, kv::any_entry()) == kv::tally(es, kv::any_entry()) + st.spans@.len(),
        forall|s: i32| #[trigger] kv::taken(es2, s) <==> kv::taken(es, s) || st.span_seqs@.contains(s),
{
    let n = es.len() as int;
    wave::lemma_seated(
        items,
        st.shared,
        st.n as int,
        st.spans@.len() as int,
        st.free@,
        st.seq_of@,
        st.span_seqs@,
    );
    assert forall|i: int| 0 <= i < n implies es2[i] == es[i] by {
        assert(es2.take(n)[i] == es[i]);
    }
    assert forall|i: int| n <= i < es2.len() implies is_entry_of(
        #[trigger] es2[i],
        st.spans@[i - n],
        st.span_seqs@[i - n],
        tick,
    ) && 1 <= es2[i].seq < n_seq && !kv::taken(es, es2[i].seq) by {
        assert(is_entry_of(es2[n + (i - n)], st.spans@[i - n], st.span_seqs@[i - n], tick));
        assert(st.span_seqs@.contains(st.span_seqs@[i - n]));
        assert(st.seqs().contains(es2[i].seq));
    }
    assert forall|i: int| 0 <= i < es2.len() implies 0 <= (#[trigger] es2[i]).seq < n_seq && (es2[i].pinned
        <==> es2[i].seq == 0) && es2[i].toks@.len() > 0 by {
        if i >= n {
            assert(st.spans@[i - n].blen < st.spans@[i - n].toks@.len());
        } else {
            assert(es2[i] == es[i]);
        }
    }
    assert forall|i: int, j: int| 0 <= i < j < es2.len() implies (#[trigger] es2[i]).seq != (#[trigger] es2[j]).seq
        && es2[i].toks@ != es2[j].toks@ by {
        if j < n {
            assert(es2[i] == es[i] && es2[j] == es[j]);
        } else if i >= n {
            assert(st.span_seqs@[i - n] != st.span_seqs@[j - n]);
            assert(st.spans@[i - n].toks@ != st.spans@[j - n].toks@);
        } else {
            assert(es2[i] == es[i]);
            assert(kv::taken(es, es[i].seq));
            let sp = st.spans@[j - n];
            let k = choose|k: int| 0 <= k < st.n && plan::cut_from(#[trigger] items[k], sp);
            assert(kv::item_ok(jobs, old_es, st.shared, items[k]));
            assert(old_es.contains(es[i]));
            let o = choose|o: int| 0 <= o < old_es.len() && old_es[o] == es[i];
            if es[i].toks@ == sp.toks@ {
                assert(kv::forkable(old_es[o], items[k].toks@, st.shared));
            }
        }
    }
    assert forall|s: i32| #[trigger] kv::taken(es2, s) <==> kv::taken(es, s) || st.span_seqs@.contains(s) by {
        if kv::taken(es, s) {
            let i = choose|i: int| 0 <= i < es.len() && (#[trigger] es[i]).seq == s;
            assert(es2[i].seq == s);
        }
        if st.span_seqs@.contains(s) {
            let t = choose|t: int| 0 <= t < st.span_seqs@.len() && st.span_seqs@[t] == s;
            assert(es2[n + t].seq == s);
        }
        if kv::taken(es2, s) {
            let i = choose|i: int| 0 <= i < es2.len() && (#[trigger] es2[i]).seq == s;
            if i < n {
                assert(es[i].seq == s);
            } else {
                assert(st.span_seqs@[i - n] == s);
            }
        }
    }
    lemma_grown_tally(es2, n);
}

/// An unpinned entry on sequence `s` was there before tick `first`.
pub open spec fn cached_before(es: Seq<Entry>, s: i32, first: u64) -> bool {
    exists|i: int| 0 <= i < es.len() && (#[trigger] es[i]).seq == s && !es[i].pinned && es[i].born < first
}

/// Items among the first `n` that fork off a span cached before `first`.
pub open spec fn hits(es: Seq<Entry>, items: Seq<Item>, first: u64, n: int) -> nat
    decreases n,
{
    if n <= 0 {
        0
    } else {
        hits(es, items, first, n - 1) + if cached_before(es, items[n - 1].base, first) {
            1nat
        } else {
            0
        }
    }
}

/// Items among the first `n` whose keep span is longer than their base.
pub open spec fn misses(items: Seq<Item>, shared: bool, n: int) -> nat
    decreases n,
{
    if n <= 0 {
        0
    } else {
        misses(items, shared, n - 1) + if shared && items[n - 1].keep > items[n - 1].blen {
            1nat
        } else {
            0
        }
    }
}

fn count(kv: &Kv, items: &Vec<Item>, shared: bool, first: u64, n: usize) -> (r: (usize, usize))
    requires
        n <= items@.len(),
    ensures
        r.0 == hits(kv.entries@, items@, first, n as int),
        r.1 == misses(items@, shared, n as int),
        r.0 <= n,
        r.1 <= n,
{
    let (mut h, mut m): (usize, usize) = (0, 0);
    let mut k: usize = 0;
    while k < n
        invariant
            k <= n <= items@.len(),
            h == hits(kv.entries@, items@, first, k as int),
            m == misses(items@, shared, k as int),
            h <= k,
            m <= k,
        decreases n - k,
    {
        let s: i32 = items[k].base;
        let mut found: bool = false;
        let mut i: usize = 0;
        while i < kv.entries.len()
            invariant
                i <= kv.entries@.len(),
                found ==> cached_before(kv.entries@, s, first),
                !found ==> forall|j: int|
                    0 <= j < i && (#[trigger] kv.entries@[j]).seq == s ==> kv.entries@[j].pinned || kv.entries@[j].born
                        >= first,
            decreases kv.entries@.len() - i,
        {
            if kv.entries[i].seq == s && !kv.entries[i].pinned && kv.entries[i].born < first {
                found = true;
            }
            i += 1;
        }
        if found {
            h += 1;
        }
        if shared && items[k].keep > items[k].blen {
            m += 1;
        }
        k += 1;
    }
    (h, m)
}

/// The pending jobs are distinct and their prompts fit the context.
pub open spec fn pending_ok(jobs: Seq<Job>, pending: Seq<usize>, n_ctx: int) -> bool {
    &&& pending.no_duplicates()
    &&& forall|i: int|
        0 <= i < pending.len() ==> #[trigger] pending[i] < jobs.len() && 1 <= jobs[pending[i] as int].toks@.len() <= n_ctx
}

/// The counts cannot overflow over `left` more jobs, of so many tokens together.
pub open spec fn countable(st: Stats, left: int, tokens: int) -> bool {
    &&& st.decoded + tokens <= usize::MAX
    &&& st.waves + left <= usize::MAX
    &&& st.hits + left <= usize::MAX
    &&& st.misses + left <= usize::MAX
}

/// `items` are the pending jobs in trie order over the cache of `o`, and `p`
/// the plan of a wave over them.
pub open spec fn wave_of(o: &Kv, jobs: Seq<Job>, pending: Seq<usize>, shared: bool, limit: int, items: Seq<Item>, p: Plan) -> bool {
    &&& wave::lined_up(items, jobs, pending, o.entries@, shared)
    &&& exists|n0: int, n1: int, lo: int, hi: int| #[trigger]
        plan::is_cut(items, shared, limit, wave::seq_cap(o, items), wave::cell_cap(o, items), p, n0, n1, lo, hi)
    &&& 0 < p.n <= items.len()
}

/// The counts after the wave `p` over `items`.
pub open spec fn counted(o: &Kv, items: Seq<Item>, p: Plan, shared: bool, first: u64, a: Stats, b: Stats) -> bool {
    let n = p.n as int;
    &&& b.decoded == a.decoded + plan::cells(items, shared, n)
    &&& b.waves == a.waves + 1
    &&& b.hits == a.hits + hits(o.entries@, items, first, n)
    &&& b.misses == a.misses + misses(items, shared, n)
}

/// `seen` is unchanged for jobs that are not pending.
pub open spec fn still_seen(a: Map<usize, Seq<i32>>, b: Map<usize, Seq<i32>>, pending: Seq<usize>) -> bool {
    &&& forall|j: usize|
        !pending.contains(j) && #[trigger] a.dom().contains(j) ==> b.dom().contains(j) && b[j] == a[j]
    &&& forall|j: usize| !pending.contains(j) && #[trigger] b.dom().contains(j) ==> a.dom().contains(j)
}

/// Only jobs of a run were read.
pub open spec fn only_read(seen: Map<usize, Seq<i32>>, n: int) -> bool {
    forall|j: usize| #[trigger] seen.dom().contains(j) ==> j < n
}

/// A row is asked for a job of the run, right after exactly its prompt.
pub open spec fn right_ask(jobs: Seq<Job>, p: (usize, Seq<i32>)) -> bool {
    p.0 < jobs.len() && p.1 == jobs[p.0 as int].toks@
}

/// The row of job `j` was asked for, right after exactly its prompt.
pub open spec fn was_asked(l: &Ledger, jobs: Seq<Job>, j: usize) -> bool {
    l.asks@.contains((j, jobs[j as int].toks@))
}

/// What was asked for besides `a` was right.
pub open spec fn asked_right(a: Set<(usize, Seq<i32>)>, b: Set<(usize, Seq<i32>)>, jobs: Seq<Job>) -> bool {
    forall|p: (usize, Seq<i32>)| #[trigger] b.contains(p) ==> a.contains(p) || right_ask(jobs, p)
}

/// Job `j` was last read right after exactly its prompt.
pub open spec fn heard_right(l: &Ledger, jobs: Seq<Job>, j: usize) -> bool {
    l.seen@.dom().contains(j) && l.seen@[j] == jobs[j as int].toks@
}

/// The same head is resident in both.
pub open spec fn same_head(a: Seq<Entry>, b: Seq<Entry>) -> bool {
    forall|t: Seq<i32>| #[trigger] resident(a, t) <==> resident(b, t)
}

/// `t` is the resident head.
pub open spec fn resident(es: Seq<Entry>, t: Seq<i32>) -> bool {
    exists|i: int| 0 <= i < es.len() && (#[trigger] es[i]).pinned && es[i].toks@ == t
}

/// What a wave that went through leaves behind.
pub open spec fn went_through(
    o: Kv,
    f: Kv,
    jobs: Seq<Job>,
    items: Seq<Item>,
    p: Plan,
    pending: Seq<usize>,
    left: Seq<usize>,
    shared: bool,
    limit: int,
    first: u64,
    a: Stats,
    b: Stats,
) -> bool {
    &&& wave_of(&o, jobs, pending, shared, limit, items, p)
    &&& left == wave::jobs_of(items).skip(p.n as int)
    &&& forall|j: usize|
        wave::jobs_of(items).take(p.n as int).contains(j) ==> #[trigger] heard_right(&f.ledger, jobs, j)
    &&& still_seen(o.ledger.seen@, f.ledger.seen@, pending)
    &&& f.ledger.written@ == o.ledger.written@ + plan::cells(items, shared, p.n as int)
    &&& f.ledger.passed@ == o.ledger.passed@ + 1
    &&& f.ledger.refused@ == o.ledger.refused@
    &&& counted(&o, items, p, shared, first, a, b)
    &&& cache_after(o, f, items, p)
}

/// The cache that the wave `p` leaves: there is room made for it, the entries it
/// forked from are just used, and the spans it keeps have entries.
#[verifier::opaque]
pub open spec fn cache_after(o: Kv, f: Kv, items: Seq<Item>, p: Plan) -> bool {
    &&& f.tick == next_tick(o.tick)
    &&& exists|seqs: Seq<i32>| #[trigger]
        recached(
            wave::roomed(&o, items, p),
            f.entries@,
            wave::kept_spans(&o, items, p),
            seqs,
            kv::bases(items, p.n as int),
            f.tick,
        )
}

/// The clock that entries' uses are read on.
pub open spec fn next_tick(t: u64) -> u64 {
    if t < u64::MAX {
        (t + 1) as u64
    } else {
        t
    }
}

/// Some wave over the pending jobs went through.
pub open spec fn waved(
    o: Kv,
    f: Kv,
    jobs: Seq<Job>,
    pending: Seq<usize>,
    left: Seq<usize>,
    shared: bool,
    limit: int,
    first: u64,
    a: Stats,
    b: Stats,
) -> bool {
    exists|items: Seq<Item>, p: Plan| #[trigger]
        went_through(o, f, jobs, items, p, pending, left, shared, limit, first, a, b)
}

/// The cache after the wave `p` was refused.
pub open spec fn turned_down(
    o: Kv,
    f: Kv,
    jobs: Seq<Job>,
    items: Seq<Item>,
    p: Plan,
    pending: Seq<usize>,
    shared: bool,
    limit: int,
    out_of_cells: bool,
) -> bool {
    &&& wave_of(&o, jobs, pending, shared, limit, items, p)
    &&& f.tick == next_tick(o.tick)
    &&& f.entries@ == after_refusal(wave::roomed(&o, items, p), kv::bases(items, p.n as int), out_of_cells)
}

/// A wave that is out of cells cannot be helped: it is a lone job, and next to it
/// only the head and its own base are left.
pub open spec fn hopeless(o: Kv, items: Seq<Item>, p: Plan) -> bool {
    p.n == 1 && !kv::some_evictable(wave::roomed(&o, items, p), kv::bases(items, 1), false)
}

/// Some wave over the pending jobs ran out of cells, and there is more to try: a
/// smaller wave, or the same one next to fewer entries.
pub open spec fn set_back(o: Kv, f: Kv, jobs: Seq<Job>, pending: Seq<usize>, shared: bool, limit: int) -> bool {
    &&& came_back(&o, &f, pending)
    &&& exists|items: Seq<Item>, p: Plan| #[trigger]
        turned_down(o, f, jobs, items, p, pending, shared, limit, true) && !hopeless(o, items, p)
}

/// Some wave over the pending jobs ran out of cells with nothing more to try: a
/// lone job of `tokens` tokens.
pub open spec fn given_up(o: Kv, f: Kv, jobs: Seq<Job>, pending: Seq<usize>, shared: bool, limit: int, tokens: int) -> bool {
    &&& came_back(&o, &f, pending)
    &&& exists|items: Seq<Item>, p: Plan| #[trigger]
        turned_down(o, f, jobs, items, p, pending, shared, limit, true) && hopeless(o, items, p) && tokens
            == items[0].toks@.len()
}

/// Some wave over the pending jobs failed.
pub open spec fn broken_off(o: Kv, f: Kv, jobs: Seq<Job>, pending: Seq<usize>, shared: bool, limit: int) -> bool {
    &&& came_back(&o, &f, pending)
    &&& exists|items: Seq<Item>, p: Plan| #[trigger]
        turned_down(o, f, jobs, items, p, pending, shared, limit, false)
}

/// What a refused wave leaves behind.
pub open spec fn came_back(o: &Kv, f: &Kv, pending: Seq<usize>) -> bool {
    &&& still_seen(o.ledger.seen@, f.ledger.seen@, pending)
    &&& f.ledger.written@ == o.ledger.written@
    &&& f.ledger.passed@ == o.ledger.passed@
    &&& f.ledger.refused@ == o.ledger.refused@ + 1
    &&& f.entries@.len() <= o.entries@.len()
}

proof fn lemma_same_head_trans(a: Seq<Entry>, b: Seq<Entry>, c: Seq<Entry>)
    requires
        same_head(a, b),
        same_head(b, c),
    ensures
        same_head(a, c),
{
    assert forall|t: Seq<i32>| #[trigger] resident(a, t) <==> resident(c, t) by {
        assert(resident(a, t) <==> resident(b, t));
        assert(resident(b, t) <==> resident(c, t));
    }
}

/// Bases that stayed put still root the wave.
proof fn lemma_rooted(es: Seq<Entry>, old_es: Seq<Entry>, items: Seq<Item>, n: int, mine: Seq<i32>)
    requires
        0 <= n <= items.len(),
        rooted(old_es, items, items.len() as int),
        mine == kv::bases(items, n),
        kv::holding(es, old_es, mine),
    ensures
        rooted(es, items, n),
{
    assert forall|k: int| 0 <= k < n implies (#[trigger] items[k]).base == -1 && items[k].blen == 0 || items[k].base >= 0
        && exists|i: int|
        0 <= i < es.len() && (#[trigger] es[i]).seq == items[k].base && es[i].toks@ == wave::stem(items[k]) by {
        if items[k].base >= 0 {
            let i = choose|i: int|
                0 <= i < old_es.len() && (#[trigger] old_es[i]).seq == items[k].base && old_es[i].toks@ == wave::stem(
                    items[k],
                );
            assert(mine[k] == old_es[i].seq);
            assert(mine.contains(old_es[i].seq));
            assert(es.contains(old_es[i]));
            let x = choose|x: int| 0 <= x < es.len() && es[x] == old_es[i];
            assert(es[x].seq == items[k].base);
        }
    }
}

/// Fewer entries, the same head.
proof fn lemma_head_held(es: Seq<Entry>, old_es: Seq<Entry>, mine: Seq<i32>)
    requires
        kv::among(es, old_es),
        kv::holding(es, old_es, mine),
    ensures
        same_head(es, old_es),
{
    assert forall|t: Seq<i32>| #[trigger] resident(es, t) <==> resident(old_es, t) by {
        if resident(es, t) {
            let i = choose|i: int| 0 <= i < es.len() && (#[trigger] es[i]).pinned && es[i].toks@ == t;
            assert(old_es.contains(es[i]));
            let x = choose|x: int| 0 <= x < old_es.len() && old_es[x] == es[i];
            assert(old_es[x].pinned);
        }
        if resident(old_es, t) {
            let i = choose|i: int| 0 <= i < old_es.len() && (#[trigger] old_es[i]).pinned && old_es[i].toks@ == t;
            assert(es.contains(old_es[i]));
            let x = choose|x: int| 0 <= x < es.len() && es[x] == old_es[i];
            assert(es[x].pinned);
        }
    }
}

/// New entries and ticks leave the head alone.
proof fn lemma_head_entered(es: Seq<Entry>, es2: Seq<Entry>, es3: Seq<Entry>, mine: Seq<i32>, tick: u64)
    requires
        es2.len() >= es.len(),
        es2.take(es.len() as int) == es,
        forall|i: int| es.len() <= i < es2.len() ==> !(#[trigger] es2[i]).pinned,
        ticked(es2, es3, mine, tick),
    ensures
        same_head(es3, es),
{
    assert forall|t: Seq<i32>| #[trigger] resident(es3, t) <==> resident(es, t) by {
        if resident(es3, t) {
            let i = choose|i: int| 0 <= i < es3.len() && (#[trigger] es3[i]).pinned && es3[i].toks@ == t;
            assert(es2[i].pinned);
            assert(es2.take(es.len() as int)[i] == es[i]);
        }
        if resident(es, t) {
            let i = choose|i: int| 0 <= i < es.len() && (#[trigger] es[i]).pinned && es[i].toks@ == t;
            assert(es2.take(es.len() as int)[i] == es[i]);
            assert(es3[i].pinned);
        }
    }
}

/// The rest of the items, as jobs.
fn rest_of(items: &Vec<Item>, n: usize) -> (left: Vec<usize>)
    requires
        n <= items@.len(),
    ensures
        left@ == wave::jobs_of(items@).skip(n as int),
{
    let mut left: Vec<usize> = Vec::new();
    let mut k: usize = n;
    while k < items.len()
        invariant
            n <= k <= items@.len(),
            left@ == wave::jobs_of(items@).subrange(n as int, k as int),
        decreases items@.len() - k,
    {
        left.push(items[k].job);
        k += 1;
        proof {
            assert(left@ =~= wave::jobs_of(items@).subrange(n as int, k as int));
        }
    }
    proof {
        assert(left@ =~= wave::jobs_of(items@).skip(n as int));
    }
    left
}

/// The memory once the wave's work sequences are wiped: every entry's span,
/// new ones included, and nothing else.
proof fn lemma_wiped(m0: memory::Memory, m1: memory::Memory, m2: memory::Memory, es: Seq<Entry>, es2: Seq<Entry>, items: Seq<Item>, st: &Seats, tick: u64)
    requires
        st.ok(items),
        forall|s: i32| #[trigger] st.seqs().contains(s) ==> 1 <= s && !kv::taken(es, s),
        forall|i: int| 0 <= i < es.len() ==> m0[(#[trigger] es[i]).seq] == es[i].toks@,
        forall|s: i32| !kv::taken(es, s) && !st.seqs().contains(s) ==> #[trigger] m0[s] == Seq::<i32>::empty(),
        st.woven(m0, m1, items, st.n as int),
        forall|s: i32| #[trigger]
            m2[s] == if st.seq_of@.contains(s) {
                Seq::<i32>::empty()
            } else {
                m1[s]
            },
        es2.len() == es.len() + st.spans@.len(),
        es2.take(es.len() as int) == es,
        forall|t: int|
            0 <= t < st.spans@.len() ==> is_entry_of(
                #[trigger] es2[es.len() + t],
                st.spans@[t],
                st.span_seqs@[t],
                tick,
            ),
    ensures
        kv::backed(m2, es2, Seq::empty()),
{
    let n = es.len() as int;
    wave::lemma_seated(
        items,
        st.shared,
        st.n as int,
        st.spans@.len() as int,
        st.free@,
        st.seq_of@,
        st.span_seqs@,
    );
    assert forall|i: int| 0 <= i < es2.len() implies m2[(#[trigger] es2[i]).seq] == es2[i].toks@ by {
        if i < n {
            assert(es2.take(n)[i] == es[i]);
            assert(kv::taken(es, es[i].seq));
            assert(!st.seqs().contains(es[i].seq));
            assert(m1[es[i].seq] == m0[es[i].seq]);
        } else {
            let t = i - n;
            assert(is_entry_of(es2[n + t], st.spans@[t], st.span_seqs@[t], tick));
            let s = st.span_seqs@[t];
            if st.seq_of@.contains(s) {
                let y = choose|y: int| 0 <= y < st.seq_of@.len() && st.seq_of@[y] == s;
                assert(st.seq_of@[y] != st.span_seqs@[t]);
            }
            let k = choose|k: int| 0 <= k < st.n && plan::cut_from(#[trigger] items[k], st.spans@[t]);
            assert(items[k].base == st.spans@[t].base);
            assert(weave::based(items, st.n as int, st.spans@[t].base));
            assert(m1[s] == st.spans@[t].toks@);
        }
    }
    assert forall|s: i32| !kv::taken(es2, s) && !Seq::<i32>::empty().contains(s) implies #[trigger] m2[s]
        == Seq::<i32>::empty() by {
        if !st.seq_of@.contains(s) {
            if st.span_seqs@.contains(s) {
                let t = choose|t: int| 0 <= t < st.span_seqs@.len() && st.span_seqs@[t] == s;
                assert(es2[n + t].seq == s);
            }
            if kv::taken(es, s) {
                let i = choose|i: int| 0 <= i < es.len() && (#[trigger] es[i]).seq == s;
                assert(es2.take(n)[i] == es[i]);
                assert(es2[i].seq == s);
            }
            assert(m1[s] == m0[s]);
        }
    }
}

/// A wave formed and seated, its sequences seeded: ready to decode.
struct Ready<'a> {
    items: Vec<Item<'a>>,
    seats: Seats<'a>,
    mine: Vec<i32>,
    works: usize,
    cells: u128,
    hits: usize,
    misses: usize,
    /// the wave as it was planned
    plan: Ghost<Plan<'a>>,
}

/// What `prepare` has done to the cache of `o` for the wave `r`.
spec fn prepared(o: &Kv, f: &Kv, jobs: Seq<Job>, pending: Seq<usize>, shared: bool, limit: int, first: u64, r: Ready) -> bool {
    let items = r.items@;
    let n = r.seats.n as int;
    &&& f.wf()
    &&& f.n_seq == o.n_seq
    &&& f.n_ctx == o.n_ctx
    &&& f.head@ == o.head@
    &&& f.tick == o.tick
    &&& f.ledger.same_tally(&o.ledger)
    &&& f.ledger.dirty@ == Set::<i32>::empty()
    &&& kv::among(f.entries@, o.entries@)
    &&& kv::holding(f.entries@, o.entries@, r.mine@)
    &&& f.entries@.len() <= o.entries@.len()
    &&& r.mine@ == kv::bases(items, n)
    &&& plan::forked(items)
    &&& plan::same_base(items)
    &&& wave::one_stem(items)
    &&& r.seats.ok(items)
    &&& r.seats.shared == shared
    &&& r.works == plan::works(items, shared, n)
    &&& r.cells == plan::cells(items, shared, n)
    &&& wave_of(o, jobs, pending, shared, limit, items, r.plan@)
    &&& r.plan@.n == n
    &&& r.seats.spans@ == wave::kept_spans(o, items, r.plan@)
    &&& f.entries@ == wave::roomed(o, items, r.plan@)
    &&& n <= limit
    &&& r.hits == hits(o.entries@, items, first, n)
    &&& r.misses == misses(items, shared, n)
    &&& r.hits <= n
    &&& r.misses <= n
    &&& f.n_seq - 1 - kv::tally(f.entries@, kv::any_entry()) >= r.works + r.seats.spans@.len()
    &&& r.works >= 1
    &&& forall|s: i32| #[trigger] f.scratch@.contains(s) <==> r.seats.seqs().contains(s)
    &&& r.seats.seeded(f.ledger.held@, items)
    &&& forall|s: i32| #[trigger] r.seats.seqs().contains(s) ==> 1 <= s < f.n_seq && !kv::taken(f.entries@, s)
}

/// Form a wave, make room for it and seed its sequences.
fn prepare<'a, B: Backend>(
    kv: &mut Kv,
    b: &mut B,
    jobs: &Vec<Job<'a>>,
    pending: &Vec<usize>,
    shared: bool,
    first: u64,
    limit: usize,
) -> (r: Ready<'a>)
    requires
        old(kv).settled(),
        pending_ok(jobs@, pending@, old(kv).n_ctx as int),
        pending@.len() > 0,
        limit > 0,
    ensures
        calls::follows(old(b).told(), final(b).told(), old(kv).ledger.model(), final(kv).ledger.model()),
        prepared(old(kv), final(kv), jobs@, pending@, shared, limit as int, first, r),
{
    let ghost o = *kv;
    let ghost t0 = b.told();
    let items: Vec<Item<'a>> = wave::line_up(kv, jobs, pending, shared);
    let mut p: Plan<'a> = wave::plan_wave(kv, &items, shared, limit);
    let ghost p0 = p;
    let (h, m): (usize, usize) = count(kv, &items, shared, first, p.n);
    proof {
        plan::lemma_cost_bounds(items@, shared, p.n as int);
        assert(o.ledger.dirty@ =~= Set::<i32>::empty()) by {
            assert forall|s: i32| !o.ledger.dirty@.contains(s) by {
                if o.ledger.dirty@.contains(s) {
                    assert(o.scratch@.contains(s));
                }
            }
        }
        assert forall|k: int| 0 <= k < items@.len() implies (#[trigger] items@[k]).toks@.len() > 0 by {
            lemma_item_pending(items@, jobs@, pending@, o.entries@, shared, k);
        }
        wave::lemma_bases(items@, jobs@, o.entries@, o.n_seq as int, shared);
        assert(rooted(o.entries@, items@, items@.len() as int)) by {
            assert forall|k: int| 0 <= k < items@.len() implies (#[trigger] items@[k]).base == -1 && items@[k].blen == 0
                || items@[k].base >= 0 && exists|i: int|
                0 <= i < o.entries@.len() && (#[trigger] o.entries@[i]).seq == items@[k].base && o.entries@[i].toks@
                    == wave::stem(items@[k]) by {}
        }
    }
    let mine: Vec<i32> = wave::make_room(kv, b, &items, &mut p);
    let ghost (t1, l1) = (b.told(), kv.ledger.model());
    let free: Vec<i32> = kv.free_seqs();
    proof {
        kv::lemma_free_count(kv.entries@, kv.n_seq as int, free@);
        lemma_rooted(kv.entries@, o.entries@, items@, p.n as int, mine@);
    }
    let n: usize = p.n;
    let (works, cells): (usize, u128) = (p.works, p.cells);
    let (seq_of, span_seqs): (Vec<i32>, Vec<i32>) = wave::seat(&items, shared, n, p.spans.len(), &free);
    let seats: Seats<'a> = Seats { n, shared, spans: p.spans, seq_of, span_seqs, free };
    proof {
        assert(seats.ok(items@));
    }
    seed(kv, b, &items, &seats);
    proof {
        calls::lemma_on(t0, t1, b.told(), o.ledger.model(), l1, kv.ledger.model());
        assert(wave_of(&o, jobs@, pending@, shared, limit as int, items@, p0));
    }
    Ready { items, seats, mine, works, cells, hits: h, misses: m, plan: Ghost(p0) }
}

proof fn lemma_item_pending(items: Seq<Item>, jobs: Seq<Job>, pending: Seq<usize>, es: Seq<Entry>, shared: bool, k: int)
    requires
        wave::lined_up(items, jobs, pending, es, shared),
        0 <= k < items.len(),
    ensures
        pending.contains(items[k].job),
        items[k].job < jobs.len(),
        items[k].toks == jobs[items[k].job as int].toks,
{
    assert(wave::jobs_of(items)[k] == items[k].job);
    assert(wave::jobs_of(items).contains(items[k].job));
    assert(kv::item_ok(jobs, es, shared, items[k]));
}

/// What is left of the cache after a refusal: out of cells, one more entry goes
/// where one may.
pub open spec fn after_refusal(es: Seq<Entry>, mine: Seq<i32>, out_of_cells: bool) -> Seq<Entry> {
    if out_of_cells && kv::some_evictable(es, mine, false) {
        kv::evicted(es, mine, false)
    } else {
        es
    }
}

/// A refused wave never leaves a span behind. Out of cells: free more, else
/// the caller retries smaller; a lone job that still can't fit next to the
/// head never will.
fn refuse<B: Backend>(kv: &mut Kv, b: &mut B, rd: &Ready, e: DecodeError) -> (r: Result<(), KvError>)
    requires
        old(kv).settled(),
        rd.seats.n <= rd.items@.len(),
        rd.seats.n > 0,
    ensures
        calls::follows(old(b).told(), final(b).told(), old(kv).ledger.model(), final(kv).ledger.model()),
        final(kv).settled(),
        final(kv).same_run(old(kv)),
        same_head(final(kv).entries@, old(kv).entries@),
        final(kv).entries@.len() <= old(kv).entries@.len(),
        final(kv).entries@ == after_refusal(old(kv).entries@, rd.mine@, e is NoSlot),
        r is Ok ==> e is NoSlot && (rd.seats.n > 1 || kv::some_evictable(old(kv).entries@, rd.mine@, false)),
        r is Ok ==> final(kv).entries@.len() < old(kv).entries@.len() || rd.seats.n > 1,
        r matches Err(x) ==> match x {
            KvError::Unfit { tokens, ctx } => e is NoSlot && rd.seats.n == 1 && ctx == old(kv).n_ctx && tokens
                == rd.items@[0].toks@.len() && !kv::some_evictable(old(kv).entries@, rd.mine@, false),
            KvError::Decode(d) => e is Failed && d == e,
            KvError::Prompt { .. } => false,
        },
{
    proof {
        calls::lemma_idle(b.told(), kv.ledger.model());
    }
    match e {
        DecodeError::NoSlot => {
            let ghost before = kv.entries@;
            let evicted: bool = kv.evict(b, &rd.mine, false);
            proof {
                lemma_head_held(kv.entries@, before, rd.mine@);
            }
            if !evicted && rd.seats.n == 1 {
                return Err(KvError::Unfit { tokens: rd.items[0].toks.len(), ctx: kv.n_ctx });
            }
            Ok(())
        },
        DecodeError::Failed(m) => Err(KvError::Decode(DecodeError::Failed(m))),
    }
}

/// The cache `b` that a wave leaves of `a`: the entries it forked from are just
/// used, and every span it keeps has an entry.
pub open spec fn recached(a: Seq<Entry>, b: Seq<Entry>, spans: Seq<Span>, seqs: Seq<i32>, mine: Seq<i32>, tick: u64) -> bool {
    &&& b.len() == a.len() + spans.len()
    &&& ticked(a, b.take(a.len() as int), mine, tick)
    &&& forall|t: int| 0 <= t < spans.len() ==> is_entry_of(#[trigger] b[a.len() + t], spans[t], seqs[t], tick)
}

proof fn lemma_recached(
    a: Seq<Entry>,
    b: Seq<Entry>,
    c: Seq<Entry>,
    spans: Seq<Span>,
    seqs: Seq<i32>,
    mine: Seq<i32>,
    tick: u64,
)
    requires
        b.len() == a.len() + spans.len(),
        b.take(a.len() as int) == a,
        forall|t: int| 0 <= t < spans.len() ==> is_entry_of(#[trigger] b[a.len() + t], spans[t], seqs[t], tick),
        ticked(b, c, mine, tick),
    ensures
        recached(a, c, spans, seqs, mine, tick),
{
    let d = c.take(a.len() as int);
    assert forall|i: int| 0 <= i < a.len() implies {
        let (x, y) = (a[i], #[trigger] d[i]);
        &&& y.toks == x.toks
        &&& y.seq == x.seq
        &&& y.cells == x.cells
        &&& y.born == x.born
        &&& y.pinned == x.pinned
        &&& y.temp == x.temp
        &&& y.tick == if mine.contains(x.seq) {
            tick
        } else {
            x.tick
        }
    } by {
        assert(b.take(a.len() as int)[i] == b[i]);
        assert(c[i] == d[i]);
    }
    assert forall|t: int| 0 <= t < spans.len() implies is_entry_of(#[trigger] c[a.len() + t], spans[t], seqs[t], tick) by {
        assert(is_entry_of(b[a.len() + t], spans[t], seqs[t], tick));
    }
}

/// Keep the spans of a wave that went through: its memory becomes theirs.
fn keep(
    kv: &mut Kv,
    rd: &Ready,
    Ghost(jobs): Ghost<Seq<Job>>,
    Ghost(old_es): Ghost<Seq<Entry>>,
    Ghost(m0): Ghost<memory::Memory>,
    Ghost(m1): Ghost<memory::Memory>,
)
    requires
        2 <= old(kv).n_seq <= i32::MAX,
        old(kv).ledger.n_seq == old(kv).n_seq,
        kv::entries_ok(old(kv).entries@, old(kv).n_seq as int),
        kv::tally(old(kv).entries@, kv::any_entry()) + rd.seats.spans@.len() <= old(kv).n_seq - 2,
        kv::among(old(kv).entries@, old_es),
        rd.seats.ok(rd.items@),
        forall|k: int|
            0 <= k < rd.items@.len() ==> kv::item_ok(jobs, old_es, rd.seats.shared, #[trigger] rd.items@[k]),
        forall|s: i32| #[trigger]
            rd.seats.seqs().contains(s) ==> 1 <= s < old(kv).n_seq && !kv::taken(old(kv).entries@, s),
        forall|i: int|
            0 <= i < old(kv).entries@.len() ==> m0[(#[trigger] old(kv).entries@[i]).seq] == old(kv).entries@[i].toks@,
        forall|s: i32|
            !kv::taken(old(kv).entries@, s) && !rd.seats.seqs().contains(s) ==> #[trigger] m0[s] == Seq::<i32>::empty(),
        rd.seats.woven(m0, m1, rd.items@, rd.seats.n as int),
        forall|s: i32| #[trigger]
            old(kv).ledger.held@[s] == if rd.seats.seq_of@.contains(s) {
                Seq::<i32>::empty()
            } else {
                m1[s]
            },
        forall|s: i32| !(#[trigger] old(kv).ledger.dirty@.contains(s)),
        forall|i: int|
            0 <= i < old(kv).entries@.len() && (#[trigger] old(kv).entries@[i]).pinned ==> old(kv).entries@[i].toks@
                == old(kv).head@,
    ensures
        final(kv).settled(),
        final(kv).n_seq == old(kv).n_seq,
        final(kv).n_ctx == old(kv).n_ctx,
        final(kv).head@ == old(kv).head@,
        final(kv).ledger == old(kv).ledger,
        final(kv).tick == old(kv).tick,
        same_head(final(kv).entries@, old(kv).entries@),
        recached(
            old(kv).entries@,
            final(kv).entries@,
            rd.seats.spans@,
            rd.seats.span_seqs@,
            rd.mine@,
            old(kv).tick,
        ),
{
    let ghost es = kv.entries@;
    kv.scratch = Vec::new();
    let tick: u64 = kv.tick;
    enter(&mut kv.entries, &rd.seats, tick);
    let ghost es2 = kv.entries@;
    touch(&mut kv.entries, &rd.mine, tick);
    proof {
        lemma_entered(es, es2, kv.n_seq as int, old_es, jobs, rd.items@, &rd.seats, tick);
        lemma_ticked(es2, kv.entries@, rd.mine@, tick, kv.n_seq as int);
        lemma_wiped(m0, m1, kv.ledger.held@, es, es2, rd.items@, &rd.seats, tick);
        assert forall|i: int| es.len() <= i < es2.len() implies !(#[trigger] es2[i]).pinned by {
            assert(is_entry_of(
                es2[es.len() + (i - es.len())],
                rd.seats.spans@[i - es.len()],
                rd.seats.span_seqs@[i - es.len()],
                tick,
            ));
        }
        lemma_head_entered(es, es2, kv.entries@, rd.mine@, tick);
        lemma_recached(es, es2, kv.entries@, rd.seats.spans@, rd.seats.span_seqs@, rd.mine@, tick);
        assert forall|i: int| 0 <= i < kv.entries@.len() && (#[trigger] kv.entries@[i]).pinned implies kv.entries@[i].toks@
            == kv.head@ by {
            assert(resident(kv.entries@, kv.entries@[i].toks@));
            assert(resident(es, kv.entries@[i].toks@));
        }
        assert(kv::backed(kv.ledger.held@, kv.entries@, kv.scratch@)) by {
            assert forall|i: int| 0 <= i < kv.entries@.len() implies kv.ledger.held@[(#[trigger] kv.entries@[i]).seq]
                == kv.entries@[i].toks@ by {
                assert(kv.ledger.held@[es2[i].seq] == es2[i].toks@);
            }
        }
    }
}

/// What a wave is does not hang on the clock.
proof fn lemma_clock_aside(o: &Kv, o2: &Kv, jobs: Seq<Job>, pending: Seq<usize>, shared: bool, limit: int, items: Seq<Item>, p: Plan)
    requires
        o2.entries@ == o.entries@,
        o2.n_seq == o.n_seq,
        o2.n_ctx == o.n_ctx,
        wave_of(o2, jobs, pending, shared, limit, items, p),
    ensures
        wave_of(o, jobs, pending, shared, limit, items, p),
        wave::roomed(o2, items, p) == wave::roomed(o, items, p),
        wave::kept_spans(o2, items, p) == wave::kept_spans(o, items, p),
{
    let (n0, n1, lo, hi) = choose|n0: int, n1: int, lo: int, hi: int| #[trigger]
        plan::is_cut(items, shared, limit, wave::seq_cap(o2, items), wave::cell_cap(o2, items), p, n0, n1, lo, hi);
    assert(wave::seq_cap(o2, items) == wave::seq_cap(o, items));
    assert(wave::cell_cap(o2, items) == wave::cell_cap(o, items));
}

/// Items stand for pending jobs.
proof fn lemma_items_pending(items: Seq<Item>, jobs: Seq<Job>, pending: Seq<usize>, es: Seq<Entry>, shared: bool, n_ctx: int)
    requires
        wave::lined_up(items, jobs, pending, es, shared),
        pending_ok(jobs, pending, n_ctx),
    ensures
        forall|k: int|
            0 <= k < items.len() ==> (#[trigger] items[k]).job < jobs.len() && items[k].toks == jobs[items[k].job as int].toks
                && 1 <= items[k].toks@.len() <= n_ctx && pending.contains(items[k].job),
{
    assert forall|k: int| 0 <= k < items.len() implies (#[trigger] items[k]).job < jobs.len() && items[k].toks
        == jobs[items[k].job as int].toks && 1 <= items[k].toks@.len() <= n_ctx && pending.contains(items[k].job) by {
        lemma_item_pending(items, jobs, pending, es, shared, k);
        let i = choose|i: int| 0 <= i < pending.len() && pending[i] == items[k].job;
        assert(pending[i] < jobs.len());
    }
}

/// What is unchanged for all but a few jobs is unchanged for all but more.
proof fn lemma_fewer_seen(a: Map<usize, Seq<i32>>, b: Map<usize, Seq<i32>>, few: Seq<usize>, more: Seq<usize>)
    requires
        still_seen(a, b, few),
        forall|j: usize| #[trigger] few.contains(j) ==> more.contains(j),
    ensures
        still_seen(a, b, more),
{
    assert forall|j: usize| !more.contains(j) && #[trigger] a.dom().contains(j) implies b.dom().contains(j) && b[j] == a[j] by {
        assert(!few.contains(j));
    }
    assert forall|j: usize| !more.contains(j) && #[trigger] b.dom().contains(j) implies a.dom().contains(j) by {
        assert(!few.contains(j));
    }
}

/// Decode a prepared wave and wipe its work sequences, those of its spans too
/// where it was refused. Gives the memory that the decode left.
#[verifier::rlimit(20)]
fn launch<'a, B: Backend>(
    l: &mut Ledger,
    b: &mut B,
    jobs: &Vec<Job<'a>>,
    rd: &Ready<'a>,
) -> (r: (Result<(), DecodeError>, Ghost<memory::Memory>))
    requires
        plan::in_order(rd.items@),
        plan::forked(rd.items@),
        plan::same_base(rd.items@),
        wave::one_stem(rd.items@),
        rd.seats.ok(rd.items@),
        rd.seats.seeded(old(l).held@, rd.items@),
        forall|k: int|
            0 <= k < rd.items@.len() ==> (#[trigger] rd.items@[k]).job < jobs@.len() && rd.items@[k].toks
                == jobs@[rd.items@[k].job as int].toks,
        forall|s: i32| #[trigger] rd.seats.seqs().contains(s) ==> old(l).has(s),
        forall|s: i32| !(#[trigger] old(l).dirty@.contains(s)),
    ensures
        calls::follows(old(b).told(), final(b).told(), old(l).model(), final(l).model()),
        asked_right(old(l).asks@, final(l).asks@, jobs@),
        final(l).n_seq == old(l).n_seq,
        forall|s: i32| !(#[trigger] final(l).dirty@.contains(s)),
        still_seen(old(l).seen@, final(l).seen@, wave::jobs_of(rd.items@).take(rd.seats.n as int)),
        match r.0 {
            Ok(_) => {
                &&& rd.seats.woven(old(l).held@, r.1@, rd.items@, rd.seats.n as int)
                &&& forall|s: i32| #[trigger]
                    final(l).held@[s] == if rd.seats.seq_of@.contains(s) {
                        Seq::<i32>::empty()
                    } else {
                        r.1@[s]
                    }
                &&& forall|j: usize|
                    wave::jobs_of(rd.items@).take(rd.seats.n as int).contains(j) ==> #[trigger] heard_right(final(l), jobs@, j)
                &&& final(l).written@ == old(l).written@ + plan::cells(rd.items@, rd.seats.shared, rd.seats.n as int)
                &&& final(l).passed@ == old(l).passed@ + 1
                &&& final(l).refused@ == old(l).refused@
            },
            Err(e) => {
                &&& kv::refuses::<B>(e)
                &&& forall|s: i32| #[trigger]
                    final(l).held@[s] == if rd.seats.seqs().contains(s) {
                        Seq::<i32>::empty()
                    } else {
                        old(l).held@[s]
                    }
                &&& final(l).written@ == old(l).written@
                &&& final(l).passed@ == old(l).passed@
                &&& final(l).refused@ == old(l).refused@ + 1
            },
        },
{
    let ghost (m0, seen0) = (l.held@, l.seen@);
    let (groups, rows): (Vec<Dec<'a>>, Vec<Vec<usize>>) = weave::weave(&rd.items, &rd.seats, jobs, Ghost(m0));
    let ghost want = |j: usize| jobs@[j as int].toks@;
    proof {
        memory::lemma_reads_logits(m0, groups@, rows@, want);
        memory::lemma_heard(m0, groups@, rows@, seen0, want);
        memory::lemma_asked(m0, groups@, rows@, want);
    }
    let ghost (t0, l0) = (b.told(), l.model());
    let res: Result<(), DecodeError> = l.decode(b, &groups, &rows, Ghost(rd.seats.seqs()));
    proof {
        calls::lemma_idle(t0, l0);
        calls::lemma_call(t0, t0, l0, l0, Call::Decode { groups: groups@, rows: rows@, went: res is Ok });
    }
    let ghost (t1, m2) = (b.told(), l.model());
    proof {
        assert forall|p: (usize, Seq<i32>)| #[trigger] l.asks@.contains(p) implies old(l).asks@.contains(p) || right_ask(
            jobs@,
            p,
        ) by {
            if memory::asked(m0, groups@, rows@).contains(p) {
                let k = choose|k: int| 0 <= k < memory::jobs_read(rows@).len() && memory::jobs_read(rows@)[k] == p.0;
                assert(rd.items@[k].job == p.0);
                assert(want(p.0) == jobs@[p.0 as int].toks@);
            }
        }
    }
    let ghost m1 = l.held@;
    let ghost js = wave::jobs_of(rd.items@).take(rd.seats.n as int);
    proof {
        assert forall|i: int| 0 <= i < rd.seats.seq_of@.len() implies l.has(#[trigger] rd.seats.seq_of@[i]) by {
            assert(rd.seats.seq_of@.contains(rd.seats.seq_of@[i]));
            assert(rd.seats.seqs().contains(rd.seats.seq_of@[i]));
        }
        assert forall|i: int| 0 <= i < rd.seats.span_seqs@.len() implies l.has(#[trigger] rd.seats.span_seqs@[i]) by {
            assert(rd.seats.span_seqs@.contains(rd.seats.span_seqs@[i]));
            assert(rd.seats.seqs().contains(rd.seats.span_seqs@[i]));
        }
        assert forall|j: usize| !js.contains(j) && #[trigger] seen0.dom().contains(j) implies l.seen@.dom().contains(j)
            && l.seen@[j] == seen0[j] by {
            assert(!memory::jobs_read(rows@).contains(j));
            assert(memory::heard(m0, groups@, rows@, seen0).dom().contains(j) <==> seen0.dom().contains(j));
        }
        assert forall|j: usize| !js.contains(j) && #[trigger] l.seen@.dom().contains(j) implies seen0.dom().contains(j) by {
            assert(!memory::jobs_read(rows@).contains(j));
            assert(memory::heard(m0, groups@, rows@, seen0).dom().contains(j) <==> seen0.dom().contains(j));
        }
        if res is Ok {
            assert forall|j: usize| js.contains(j) implies #[trigger] heard_right(l, jobs@, j) by {
                assert(memory::jobs_read(rows@).contains(j));
                assert(memory::heard(m0, groups@, rows@, seen0).dom().contains(j));
                assert(want(j) == jobs@[j as int].toks@);
            }
        }
    }
    let ghost l1 = *l;
    wipe(l, b, &rd.seats.seq_of);
    let ghost (t2, m3) = (b.told(), l.model());
    proof {
        calls::lemma_on(t0, t1, t2, l0, m2, m3);
    }
    if res.is_err() {
        wipe(l, b, &rd.seats.span_seqs);
        proof {
            calls::lemma_on(t0, t2, b.told(), l0, m3, l.model());
        }
    }
    proof {
        assert(l.seen@ == l1.seen@);
        if res is Ok {
            assert forall|j: usize| js.contains(j) implies #[trigger] heard_right(l, jobs@, j) by {
                assert(heard_right(&l1, jobs@, j));
            }
        }
    }
    (res, Ghost(m1))
}

/// One wave of at most `limit` jobs: plan, decode, clean up. Returns the jobs
/// left, or None when the backend ran out of cells and the caller should
/// retry with a smaller wave.
#[verifier::rlimit(60)]
#[verifier::spinoff_prover]
pub fn wave<'a, B: Backend>(
    kv: &mut Kv,
    b: &mut B,
    jobs: &Vec<Job<'a>>,
    pending: &Vec<usize>,
    shared: bool,
    first: u64,
    limit: usize,
    st: &mut Stats,
) -> (r: Result<Option<Vec<usize>>, KvError>)
    requires
        old(kv).settled(),
        pending_ok(jobs@, pending@, old(kv).n_ctx as int),
        pending@.len() > 0,
        limit > 0,
        countable(*old(st), pending@.len() as int, weight::weight(jobs@, pending@, jobs@.len() as int) as int),
    ensures
        calls::follows(old(b).told(), final(b).told(), old(kv).ledger.model(), final(kv).ledger.model()),
        final(kv).settled(),
        final(kv).n_seq == old(kv).n_seq,
        final(kv).n_ctx == old(kv).n_ctx,
        final(kv).head@ == old(kv).head@,
        same_head(final(kv).entries@, old(kv).entries@),
        asked_right(old(kv).ledger.asks@, final(kv).ledger.asks@, jobs@),
        r matches Ok(Some(left)) ==> waved(
            *old(kv),
            *final(kv),
            jobs@,
            pending@,
            left@,
            shared,
            limit as int,
            first,
            *old(st),
            *final(st),
        ),
        r is Err || r->Ok_0 is None ==> *final(st) == *old(st),
        r matches Ok(None) ==> {
            &&& kv::refuses::<B>(DecodeError::NoSlot)
            &&& set_back(*old(kv), *final(kv), jobs@, pending@, shared, limit as int)
            &&& final(kv).entries@.len() < old(kv).entries@.len() || (limit >= 2 && pending@.len() >= 2)
        },
        r matches Err(e) ==> match e {
            KvError::Unfit { tokens, ctx } => {
                &&& ctx == old(kv).n_ctx
                &&& kv::refuses::<B>(DecodeError::NoSlot)
                &&& given_up(*old(kv), *final(kv), jobs@, pending@, shared, limit as int, tokens as int)
                &&& exists|i: int| 0 <= i < pending@.len() && tokens == jobs@[#[trigger] pending@[i] as int].toks@.len()
            },
            KvError::Decode(d) => {
                &&& d is Failed
                &&& kv::refuses::<B>(d)
                &&& broken_off(*old(kv), *final(kv), jobs@, pending@, shared, limit as int)
            },
            KvError::Prompt { .. } => false,
        },
{
    let ghost o = *kv;
    kv.tick = kv.tick.saturating_add(1);
    let ghost o2 = *kv;
    let ghost (t0, l0) = (b.told(), kv.ledger.model());
    let rd: Ready<'a> = prepare(kv, b, jobs, pending, shared, first, limit);
    let ghost (t1, l1) = (b.told(), kv.ledger.model());
    let ghost items = rd.items@;
    let ghost n = rd.seats.n as int;
    let ghost m0 = kv.ledger.held@;
    let ghost es = kv.entries@;
    let ghost p = rd.plan@;
    let ghost seen0 = kv.ledger.seen@;
    proof {
        lemma_clock_aside(&o, &o2, jobs@, pending@, shared, limit as int, items, p);
        lemma_items_pending(items, jobs@, pending@, o.entries@, shared, o.n_ctx as int);
        lemma_head_held(es, o.entries@, rd.mine@);
        lemma_wave_jobs(items, jobs@, pending@, o.entries@, shared, n);
    }
    let (res, Ghost(m1)): (Result<(), DecodeError>, Ghost<memory::Memory>) = launch(&mut kv.ledger, b, jobs, &rd);
    let ghost (t2, l2) = (b.told(), kv.ledger.model());
    proof {
        calls::lemma_on(t0, t1, t2, l0, l1, l2);
        assert(seen0 == o.ledger.seen@);
        lemma_fewer_seen(seen0, kv.ledger.seen@, wave::jobs_of(items).take(n), pending@);
    }
    match res {
        Err(e) => {
            kv.scratch = Vec::new();
            proof {
                lemma_refused(kv, es, &rd.seats, m0);
            }
            let ghost out_of_cells = e is NoSlot;
            let r = refuse(kv, b, &rd, e);
            proof {
                calls::lemma_on(t0, t2, b.told(), l0, l2, kv.ledger.model());
                lemma_same_head_trans(kv.entries@, es, o.entries@);
                assert(out_of_cells == !(r is Err && r->Err_0 is Decode));
                assert(turned_down(o, *kv, jobs@, items, p, pending@, shared, limit as int, out_of_cells));
                assert(came_back(&o, kv, pending@));
                assert(kv::bases(items, p.n as int) == rd.mine@);
                assert(es == wave::roomed(&o, items, p));
                if r is Err && r->Err_0 is Unfit {
                    lemma_item_pending(items, jobs@, pending@, o.entries@, shared, 0);
                    let i = choose|i: int| 0 <= i < pending@.len() && pending@[i] == items[0].job;
                    assert(items[0].toks@.len() == jobs@[pending@[i] as int].toks@.len());
                }
            }
            match r {
                Ok(_) => Ok(None),
                Err(x) => Err(x),
            }
        },
        Ok(_) => {
            keep(kv, &rd, Ghost(jobs@), Ghost(o.entries@), Ghost(m0), Ghost(m1));
            proof {
                lemma_same_head_trans(kv.entries@, es, o.entries@);
                assert(jobs.len() == jobs@.len());
                weight::lemma_cells_weigh(jobs@, items, shared, n);
                weight::lemma_left_weighs(jobs@, items, pending@, n);
            }
            st.decoded += rd.cells as usize;
            st.waves += 1;
            st.hits += rd.hits;
            st.misses += rd.misses;
            let left: Vec<usize> = rest_of(&rd.items, rd.seats.n);
            proof {
                assert(recached(
                    wave::roomed(&o, items, p),
                    kv.entries@,
                    wave::kept_spans(&o, items, p),
                    rd.seats.span_seqs@,
                    kv::bases(items, n),
                    kv.tick,
                ));
                assert(cache_after(o, *kv, items, p)) by {
                    reveal(cache_after);
                }
                assert(went_through(
                    *old(kv),
                    *kv,
                    jobs@,
                    items,
                    p,
                    pending@,
                    left@,
                    shared,
                    limit as int,
                    first,
                    *old(st),
                    *st,
                ));
                assert(waved(
                    *old(kv),
                    *kv,
                    jobs@,
                    pending@,
                    left@,
                    shared,
                    limit as int,
                    first,
                    *old(st),
                    *st,
                ));
            }
            Ok(Some(left))
        },
    }
}

/// The jobs of a wave are pending.
proof fn lemma_wave_jobs(items: Seq<Item>, jobs: Seq<Job>, pending: Seq<usize>, es: Seq<Entry>, shared: bool, n: int)
    requires
        wave::lined_up(items, jobs, pending, es, shared),
        0 <= n <= items.len(),
    ensures
        forall|j: usize| #[trigger] wave::jobs_of(items).take(n).contains(j) ==> pending.contains(j),
        forall|j: usize| #[trigger] wave::jobs_of(items).skip(n).contains(j) ==> pending.contains(j),
{
    let all = wave::jobs_of(items);
    assert forall|j: usize| #[trigger] all.take(n).contains(j) implies pending.contains(j) by {
        let k = choose|k: int| 0 <= k < n && all.take(n)[k] == j;
        assert(all[k] == j);
        assert(all.contains(j));
    }
    assert forall|j: usize| #[trigger] all.skip(n).contains(j) implies pending.contains(j) by {
        let k = choose|k: int| 0 <= k < all.len() - n && all.skip(n)[k] == j;
        assert(all[n + k] == j);
        assert(all.contains(j));
    }
}

/// A refused wave, wiped, leaves the memory as it was before it was seeded.
proof fn lemma_refused(kv: &Kv, es: Seq<Entry>, st: &Seats, m0: memory::Memory)
    requires
        kv.entries@ == es,
        kv.scratch@.len() == 0,
        2 <= kv.n_seq <= i32::MAX,
        kv.ledger.n_seq == kv.n_seq,
        kv::entries_ok(es, kv.n_seq as int),
        kv::tally(es, kv::any_entry()) <= kv.n_seq - 2,
        forall|i: int| 0 <= i < es.len() && (#[trigger] es[i]).pinned ==> es[i].toks@ == kv.head@,
        forall|i: int| 0 <= i < es.len() ==> m0[(#[trigger] es[i]).seq] == es[i].toks@,
        forall|s: i32| !kv::taken(es, s) && !st.seqs().contains(s) ==> #[trigger] m0[s] == Seq::<i32>::empty(),
        forall|s: i32| #[trigger] st.seqs().contains(s) ==> !kv::taken(es, s),
        forall|s: i32| #[trigger]
            kv.ledger.held@[s] == if st.seqs().contains(s) {
                Seq::<i32>::empty()
            } else {
                m0[s]
            },
        forall|s: i32| !(#[trigger] kv.ledger.dirty@.contains(s)),
    ensures
        kv.settled(),
{
    assert forall|i: int| 0 <= i < es.len() implies kv.ledger.held@[(#[trigger] es[i]).seq] == es[i].toks@ by {
        assert(kv::taken(es, es[i].seq));
    }
}

/// A run between waves: its cache, the jobs left, the counts so far, and how many
/// jobs the next wave takes at most.
pub struct Point {
    pub kv: Kv,
    pub left: Seq<usize>,
    pub st: Stats,
    pub limit: int,
}

/// How many jobs a wave takes at most after one of at most `limit` of the `left`
/// jobs was set back: half of those, and one at least.
pub open spec fn smaller(limit: int, left: int) -> int {
    let most = if limit < left {
        limit
    } else {
        left
    };
    if most / 2 > 1 {
        most / 2
    } else {
        1
    }
}

/// One wave leads from `a` to `b`: it went through, and the next may take all
/// jobs again; or it was set back, and the next is smaller.
#[verifier::opaque]
pub open spec fn step(jobs: Seq<Job>, shared: bool, first: u64, a: Point, b: Point) -> bool {
    &&& b.kv.settled()
    &&& same_head(b.kv.entries@, a.kv.entries@)
    &&& {
        ||| waved(a.kv, b.kv, jobs, a.left, b.left, shared, a.limit, first, a.st, b.st) && b.limit == usize::MAX
        ||| set_back(a.kv, b.kv, jobs, a.left, shared, a.limit) && b.left == a.left && b.st == a.st && b.limit
            == smaller(a.limit, a.left.len() as int)
    }
}

/// Waves lead from each point to the next.
pub open spec fn led(jobs: Seq<Job>, shared: bool, first: u64, way: Seq<Point>) -> bool
    decreases way.len(),
{
    way.len() <= 1 || (led(jobs, shared, first, way.drop_last()) && step(
        jobs,
        shared,
        first,
        way[way.len() - 2],
        way.last(),
    ))
}

/// The way of a run over the cache of `o`, as far as it went: from all jobs and no
/// counts.
pub open spec fn is_way(o: &Kv, jobs: Seq<Job>, shared: bool, way: Seq<Point>) -> bool {
    &&& way.len() > 0
    &&& led(jobs, shared, next_tick(o.tick), way)
    &&& way[0].kv.settled()
    &&& way[0].kv.entries@ == o.entries@
    &&& way[0].kv.tick == o.tick
    &&& way[0].kv.n_seq == o.n_seq
    &&& way[0].kv.n_ctx == o.n_ctx
    &&& way[0].left == Seq::new(jobs.len(), |i: int| i as usize)
    &&& way[0].st == (Stats { decoded: 0, waves: 0, hits: 0, misses: 0 })
    &&& way[0].limit == usize::MAX
    &&& way[0].kv.ledger.refused@ == o.ledger.refused@
}

/// The way of a run that answered every job: no job is left, and the cache is
/// trimmed at the end.
pub open spec fn arrived(o: &Kv, f: &Kv, jobs: Seq<Job>, shared: bool, st: Stats, way: Seq<Point>) -> bool {
    &&& is_way(o, jobs, shared, way)
    &&& way.last().left.len() == 0
    &&& way.last().st == st
    &&& f.entries@ == trimmed_of(way.last().kv.entries@, o.n_seq as int, o.n_ctx as int)
    &&& f.tick == way.last().kv.tick
    &&& f.ledger.refused@ == way.last().kv.ledger.refused@
}

/// The way of a run that had to give up: its last wave was a job of `tokens`
/// tokens alone, out of cells with nothing left to evict.
pub open spec fn ended_short(o: &Kv, f: &Kv, jobs: Seq<Job>, shared: bool, tokens: int, way: Seq<Point>) -> bool {
    &&& is_way(o, jobs, shared, way)
    &&& given_up(way.last().kv, *f, jobs, way.last().left, shared, way.last().limit, tokens)
}

/// The way of a run whose last wave failed.
pub open spec fn ended_broken(o: &Kv, f: &Kv, jobs: Seq<Job>, shared: bool, way: Seq<Point>) -> bool {
    &&& is_way(o, jobs, shared, way)
    &&& broken_off(way.last().kv, *f, jobs, way.last().left, shared, way.last().limit)
}

proof fn lemma_led(jobs: Seq<Job>, shared: bool, first: u64, way: Seq<Point>, b: Point)
    requires
        way.len() > 0,
        led(jobs, shared, first, way),
        step(jobs, shared, first, way.last(), b),
    ensures
        led(jobs, shared, first, way.push(b)),
{
    assert(way.push(b).drop_last() =~= way);
}

/// A prompt that no run takes.
pub open spec fn unfit(j: Job, n_ctx: int) -> bool {
    j.toks@.len() == 0 || j.toks@.len() > n_ctx
}

/// Every unpinned entry.
pub open spec fn unpinned() -> spec_fn(Entry) -> bool {
    |e: Entry| !e.pinned
}

/// The cache keeps at most half the sequences and half the cells, and nothing
/// request-scoped.
pub open spec fn trimmed(kv: &Kv) -> bool {
    &&& kv::tally(kv.entries@, kv::any_entry()) <= kv.n_seq / 2
    &&& kv::cell_sum(kv.entries@, unpinned()) <= kv.n_ctx / 2
    &&& forall|i: int| 0 <= i < kv.entries@.len() ==> (#[trigger] kv.entries@[i]).pinned || !kv.entries@[i].temp
}

/// The entry of the resident head.
pub open spec fn is_head_entry(e: Entry, head: Seq<i32>) -> bool {
    &&& e.toks@ == head
    &&& e.seq == 0
    &&& e.cells == head.len()
    &&& e.tick == 0
    &&& e.born == 0
    &&& e.pinned
    &&& !e.temp
}

/// Memory that holds `head` on sequence 0, if there is one, and nothing else.
pub open spec fn fresh(kv: &Kv) -> bool {
    &&& kv.settled()
    &&& kv.tick == 0
    &&& if kv.head@.len() == 0 {
        kv.entries@.len() == 0
    } else {
        kv.entries@.len() == 1 && is_head_entry(kv.entries@[0], kv.head@)
    }
}

/// What trimming has kept so far of the cache of `o`.
spec fn trimming(o: &Kv, kv: &Kv) -> bool {
    &&& kv.settled()
    &&& kv.same_run(o)
    &&& kv::among(kv.entries@, o.entries@)
    &&& same_head(kv.entries@, o.entries@)
}

proof fn lemma_trim_step(o: &Kv, a: &Kv, b: &Kv, hold: Seq<i32>)
    requires
        trimming(o, a),
        b.settled(),
        b.same_run(a),
        kv::among(b.entries@, a.entries@),
        kv::holding(b.entries@, a.entries@, hold),
    ensures
        trimming(o, b),
{
    lemma_head_held(b.entries@, a.entries@, hold);
    lemma_same_head_trans(b.entries@, a.entries@, o.entries@);
    assert forall|i: int| 0 <= i < b.entries@.len() implies o.entries@.contains(#[trigger] b.entries@[i]) by {
        assert(a.entries@.contains(b.entries@[i]));
        let k = choose|k: int| 0 <= k < a.entries@.len() && a.entries@[k] == b.entries@[i];
        assert(o.entries@.contains(a.entries@[k]));
    }
}

/// Caches of at most half the sequences and half the cells.
pub open spec fn halved(n_seq: int, n_ctx: int) -> spec_fn(Seq<Entry>) -> bool {
    |es: Seq<Entry>| kv::tally(es, kv::any_entry()) <= n_seq / 2 && kv::cell_sum(es, unpinned()) <= n_ctx / 2
}

/// What a run leaves cached: request-scoped entries go, then the least recently
/// used ones until the rest keeps to half the sequences and half the cells.
pub open spec fn trimmed_of(es: Seq<Entry>, n_seq: int, n_ctx: int) -> Seq<Entry> {
    let none = Seq::<i32>::empty();
    kv::evicted_until(
        kv::evicted_until(es, none, true, |es: Seq<Entry>| false),
        none,
        false,
        halved(n_seq, n_ctx),
    )
}

/// Drop request-scoped entries, then the least recently used ones until the
/// cache keeps at most half the sequences and half the cells.
fn trim<B: Backend>(kv: &mut Kv, b: &mut B)
    requires
        old(kv).settled(),
    ensures
        calls::follows(old(b).told(), final(b).told(), old(kv).ledger.model(), final(kv).ledger.model()),
        trimming(old(kv), final(kv)),
        trimmed(final(kv)),
        final(kv).entries@ == trimmed_of(old(kv).entries@, old(kv).n_seq as int, old(kv).n_ctx as int),
{
    let none: Vec<i32> = Vec::new();
    let ghost o = *kv;
    let ghost never = |es: Seq<Entry>| false;
    let ghost half = halved(o.n_seq as int, o.n_ctx as int);
    let ghost nothing = Seq::<i32>::empty();
    let mut more: bool = true;
    let ghost t0 = b.told();
    proof {
        calls::lemma_idle(t0, o.ledger.model());
        assert(none@ =~= nothing);
        assert forall|i: int| 0 <= i < o.entries@.len() implies o.entries@.contains(#[trigger] o.entries@[i]) by {}
    }
    while more
        invariant
            o == *old(kv),
            none@ == nothing,
            nothing.len() == 0,
            trimming(&o, kv),
            t0 == old(b).told(),
            calls::follows(t0, b.told(), o.ledger.model(), kv.ledger.model()),
            forall|es: Seq<Entry>| !#[trigger] never(es),
            kv::evicted_until(kv.entries@, nothing, true, never) == kv::evicted_until(o.entries@, nothing, true, never),
            !more ==> kv.entries@ == kv::evicted_until(o.entries@, nothing, true, never) && forall|i: int|
                0 <= i < kv.entries@.len() ==> (#[trigger] kv.entries@[i]).pinned || !kv.entries@[i].temp,
        decreases kv.entries@.len(), (if more { 1int } else { 0 }),
    {
        let ghost before = *kv;
        let ghost t1 = b.told();
        more = kv.evict(b, &none, true);
        proof {
            calls::lemma_on(t0, t1, b.told(), o.ledger.model(), before.ledger.model(), kv.ledger.model());
            lemma_trim_step(&o, &before, kv, none@);
            assert(!never(before.entries@));
            if !more {
                assert forall|i: int| 0 <= i < kv.entries@.len() implies (#[trigger] kv.entries@[i]).pinned
                    || !kv.entries@[i].temp by {
                    assert(!kv::evictable(kv.entries@[i], none@, true));
                }
            }
        }
    }
    let ghost kept = kv.entries@;
    let mut over: bool = true;
    while over
        invariant
            o == *old(kv),
            none@ == nothing,
            nothing.len() == 0,
            trimming(&o, kv),
            t0 == old(b).told(),
            calls::follows(t0, b.told(), o.ledger.model(), kv.ledger.model()),
            half == halved(o.n_seq as int, o.n_ctx as int),
            kv::evicted_until(kv.entries@, nothing, false, half) == kv::evicted_until(kept, nothing, false, half),
            forall|i: int|
                0 <= i < kv.entries@.len() ==> (#[trigger] kv.entries@[i]).pinned || !kv.entries@[i].temp,
            !over ==> trimmed(kv) && kv.entries@ == kv::evicted_until(kept, nothing, false, half),
        decreases kv.entries@.len(), (if over { 1int } else { 0 }),
    {
        let (n, c): (usize, u128) = unpinned_sums(kv);
        if n <= kv.n_seq / 2 && c <= (kv.n_ctx / 2) as u128 {
            over = false;
            proof {
                assert(half(kv.entries@));
            }
        } else {
            let ghost before = *kv;
            let ghost t1 = b.told();
            over = kv.evict(b, &none, false);
            proof {
                calls::lemma_on(t0, t1, b.told(), o.ledger.model(), before.ledger.model(), kv.ledger.model());
                lemma_trim_step(&o, &before, kv, none@);
                assert(!half(before.entries@));
                if over {
                    assert forall|j: int| 0 <= j < kv.entries@.len() implies (#[trigger] kv.entries@[j]).pinned
                        || !kv.entries@[j].temp by {
                        assert(before.entries@.contains(kv.entries@[j]));
                    }
                } else {
                    assert forall|i: int| 0 <= i < kv.entries@.len() implies (#[trigger] kv.entries@[i]).pinned by {
                        assert(!kv::evictable(kv.entries@[i], none@, false));
                    }
                    lemma_all_pinned(kv.entries@);
                }
            }
        }
    }
}

proof fn lemma_all_pinned(es: Seq<Entry>)
    requires
        forall|i: int| 0 <= i < es.len() ==> (#[trigger] es[i]).pinned,
    ensures
        kv::tally(es, kv::any_entry()) == 0,
        kv::cell_sum(es, unpinned()) == 0,
    decreases es.len(),
{
    if es.len() > 0 {
        assert(es[es.len() - 1].pinned);
        assert forall|i: int| 0 <= i < es.drop_last().len() implies (#[trigger] es.drop_last()[i]).pinned by {
            assert(es[i].pinned);
        }
        lemma_all_pinned(es.drop_last());
    }
}

fn unpinned_sums(kv: &Kv) -> (r: (usize, u128))
    ensures
        r.0 == kv::tally(kv.entries@, kv::any_entry()),
        r.1 == kv::cell_sum(kv.entries@, unpinned()),
{
    let (mut n, mut c): (usize, u128) = (0, 0);
    let mut i: usize = 0;
    let ghost (f, g) = (kv::any_entry(), unpinned());
    while i < kv.entries.len()
        invariant
            i <= kv.entries@.len(),
            f == kv::any_entry(),
            g == unpinned(),
            n == kv::tally(kv.entries@.take(i as int), f),
            n <= i,
            c == kv::cell_sum(kv.entries@.take(i as int), g),
            c <= i * usize::MAX,
        decreases kv.entries@.len() - i,
    {
        proof {
            assert(kv.entries@.take(i + 1).drop_last() =~= kv.entries@.take(i as int));
            assert(i * usize::MAX + usize::MAX == (i + 1) * usize::MAX) by (nonlinear_arith);
            assert((i + 1) * usize::MAX <= u128::MAX) by (nonlinear_arith)
                requires
                    0 <= i + 1 <= usize::MAX,
            ;
        }
        if !kv.entries[i].pinned {
            n += 1;
            c = c + kv.entries[i].cells as u128;
        }
        i += 1;
    }
    proof {
        assert(kv.entries@.take(i as int) =~= kv.entries@);
    }
    (n, c)
}

/// Remove what an aborted wave may have left, and start over on which jobs
/// were read.
fn clean<B: Backend>(kv: &mut Kv, b: &mut B)
    requires
        old(kv).wf(),
    ensures
        final(b).told() == old(b).told() + removals(old(kv).scratch@),
        calls::follows(
            old(b).told(),
            final(b).told(),
            calls::unread(old(kv).ledger.model()),
            final(kv).ledger.model(),
        ),
        final(kv).settled(),
        final(kv).n_seq == old(kv).n_seq,
        final(kv).n_ctx == old(kv).n_ctx,
        final(kv).head@ == old(kv).head@,
        final(kv).tick == old(kv).tick,
        final(kv).entries@ == old(kv).entries@,
        final(kv).ledger.seen@ == Map::<usize, Seq<i32>>::empty(),
        final(kv).ledger.asks@ == old(kv).ledger.asks@,
        final(kv).ledger.written@ == old(kv).ledger.written@,
        final(kv).ledger.passed@ == old(kv).ledger.passed@,
        final(kv).ledger.refused@ == old(kv).ledger.refused@,
{
    let ghost o = *kv;
    proof {
        assert forall|i: int| 0 <= i < kv.scratch@.len() implies kv.ledger.has(#[trigger] kv.scratch@[i]) by {
            assert(kv.scratch@.contains(kv.scratch@[i]));
        }
    }
    kv.ledger.forget_reads();
    wipe(&mut kv.ledger, b, &kv.scratch);
    kv.scratch = Vec::new();
    proof {
        assert forall|i: int| 0 <= i < kv.entries@.len() implies kv.ledger.held@[(#[trigger] kv.entries@[i]).seq]
            == kv.entries@[i].toks@ by {
            let s = kv.entries@[i].seq;
            assert(kv::taken(kv.entries@, s));
            assert(!o.scratch@.contains(s));
            assert(o.ledger.held@[s] == o.entries@[i].toks@);
        }
    }
}

/// The first prompt that is empty or longer than the context.
fn first_unfit(jobs: &Vec<Job>, n_ctx: usize) -> (r: Option<usize>)
    ensures
        match r {
            Some(i) => i < jobs@.len() && unfit(jobs@[i as int], n_ctx as int) && forall|j: int|
                0 <= j < i ==> !unfit(#[trigger] jobs@[j], n_ctx as int),
            None => forall|j: int| 0 <= j < jobs@.len() ==> !unfit(#[trigger] jobs@[j], n_ctx as int),
        },
{
    let mut i: usize = 0;
    while i < jobs.len()
        invariant
            i <= jobs@.len(),
            forall|j: int| 0 <= j < i ==> !unfit(#[trigger] jobs@[j], n_ctx as int),
        decreases jobs@.len() - i,
    {
        let n: usize = jobs[i].toks.len();
        if n == 0 || n > n_ctx {
            return Some(i);
        }
        i += 1;
    }
    None
}

/// The backend refused to decode the head.
pub open spec fn refused_head<B: Backend>(e: KvError) -> bool {
    match e {
        KvError::Decode(d) => kv::refuses::<B>(d),
        _ => false,
    }
}

impl Kv {
    /// Fresh memory with `head` resident on sequence 0.
    pub fn new<B: Backend>(b: &mut B, n_seq: usize, n_ctx: usize, head: Vec<i32>) -> (r: Result<Kv, KvError>)
        requires
            2 <= n_seq <= i32::MAX,
        ensures
            r matches Ok(kv) ==> {
                &&& fresh(&kv)
                &&& kv.n_seq == n_seq
                &&& kv.n_ctx == n_ctx
                &&& kv.head@ == head@
                &&& kv.ledger.refused@ == 0
                &&& kv.ledger.passed@ == if head@.len() == 0 {
                    0nat
                } else {
                    1
                }
                &&& calls::follows(old(b).told(), final(b).told(), calls::untouched(), kv.ledger.model())
            },
            r matches Err(e) ==> head@.len() > 0 && refused_head::<B>(e) && exists|m: calls::Model|
                m.refused == 1 && #[trigger] calls::follows(old(b).told(), final(b).told(), calls::untouched(), m),
    {
        let ghost t0 = b.told();
        let ledger: Ledger = Ledger::clear(b, n_seq);
        let ghost (t1, l1) = (b.told(), ledger.model());
        proof {
            calls::lemma_idle(t0, calls::untouched());
            calls::lemma_call(t0, t0, calls::untouched(), calls::untouched(), Call::Clear);
        }
        let mut kv: Kv = Kv { n_seq, n_ctx, head, entries: Vec::new(), tick: 0, scratch: Vec::new(), ledger };
        let r: Result<(), KvError> = kv.seat_head(b);
        proof {
            calls::lemma_on(t0, t1, b.told(), calls::untouched(), l1, kv.ledger.model());
        }
        match r {
            Ok(_) => Ok(kv),
            Err(e) => Err(e),
        }
    }

    /// Wipe the cache and rebuild the resident head: recovery after a failed
    /// decode leaves memory in an unknown state. Where that fails too, nothing
    /// is cached.
    pub fn reset<B: Backend>(&mut self, b: &mut B) -> (r: Result<(), KvError>)
        requires
            2 <= old(self).n_seq <= i32::MAX,
        ensures
            calls::follows(
                old(b).told(),
                final(b).told(),
                old(self).ledger.model(),
                final(self).ledger.model(),
            ),
            final(self).wf(),
            final(self).n_seq == old(self).n_seq,
            final(self).n_ctx == old(self).n_ctx,
            final(self).head@ == old(self).head@,
            final(self).ledger.asks@ == old(self).ledger.asks@,
            r is Ok ==> {
                &&& fresh(final(self))
                &&& final(self).ledger.seen@ == Map::<usize, Seq<i32>>::empty()
                &&& final(self).ledger.refused@ == old(self).ledger.refused@
                &&& final(self).ledger.written@ == old(self).ledger.written@ + final(self).head@.len()
                &&& final(self).ledger.passed@ == old(self).ledger.passed@ + if final(self).head@.len() == 0 {
                    0int
                } else {
                    1
                }
            },
            r matches Err(e) ==> {
                &&& refused_head::<B>(e)
                &&& final(self).head@.len() > 0
                &&& final(self).entries@.len() == 0
                &&& final(self).ledger.refused@ == old(self).ledger.refused@ + 1
                &&& final(self).ledger.written@ == old(self).ledger.written@
                &&& final(self).ledger.passed@ == old(self).ledger.passed@
            },
    {
        let ghost (t0, l0) = (b.told(), self.ledger.model());
        self.ledger.restart(b);
        let ghost (t1, l1) = (b.told(), self.ledger.model());
        proof {
            calls::lemma_idle(t0, l0);
            calls::lemma_call(t0, t0, l0, l0, Call::Clear);
        }
        self.ledger.n_seq = self.n_seq;
        self.entries = Vec::new();
        self.tick = 0;
        self.scratch = Vec::new();
        let r: Result<(), KvError> = self.seat_head(b);
        proof {
            calls::lemma_on(t0, t1, b.told(), l0, l1, self.ledger.model());
        }
        r
    }

    /// Decode the head onto sequence 0 of a memory that holds nothing.
    fn seat_head<B: Backend>(&mut self, b: &mut B) -> (r: Result<(), KvError>)
        requires
            2 <= old(self).n_seq <= i32::MAX,
            old(self).ledger.n_seq == old(self).n_seq,
            old(self).ledger.held@ == memory::blank(),
            old(self).ledger.dirty@ == Set::<i32>::empty(),
            old(self).entries@.len() == 0,
            old(self).tick == 0,
            old(self).scratch@.len() == 0,
        ensures
            calls::follows(
                old(b).told(),
                final(b).told(),
                old(self).ledger.model(),
                final(self).ledger.model(),
            ),
            final(self).wf(),
            final(self).n_seq == old(self).n_seq,
            final(self).n_ctx == old(self).n_ctx,
            final(self).head@ == old(self).head@,
            final(self).ledger.asks@ == old(self).ledger.asks@,
            r is Ok ==> {
                &&& fresh(final(self))
                &&& final(self).ledger.seen@ == old(self).ledger.seen@
                &&& final(self).ledger.refused@ == old(self).ledger.refused@
                &&& final(self).ledger.written@ == old(self).ledger.written@ + final(self).head@.len()
                &&& final(self).ledger.passed@ == old(self).ledger.passed@ + if final(self).head@.len() == 0 {
                    0int
                } else {
                    1
                }
            },
            r matches Err(e) ==> {
                &&& refused_head::<B>(e)
                &&& final(self).head@.len() > 0
                &&& final(self).entries@.len() == 0
                &&& final(self).ledger.refused@ == old(self).ledger.refused@ + 1
                &&& final(self).ledger.written@ == old(self).ledger.written@
                &&& final(self).ledger.passed@ == old(self).ledger.passed@
            },
    {
        let ghost (t0, l0) = (b.told(), self.ledger.model());
        proof {
            calls::lemma_idle(t0, l0);
        }
        if self.head.len() == 0 {
            return Ok(());
        }
        let mut seqs: Vec<i32> = Vec::new();
        seqs.push(0);
        let mut groups: Vec<Dec> = Vec::new();
        groups.push(Dec { seqs, toks: self.head.as_slice(), pos0: 0, logits: true });
        let mut rows: Vec<Vec<usize>> = Vec::new();
        rows.push(Vec::new());
        let ghost m0 = self.ledger.held@;
        let ghost on = set![0i32];
        proof {
            reveal_with_fuel(memory::decodable, 2);
            reveal_with_fuel(memory::decoded, 2);
            reveal_with_fuel(memory::written, 2);
            assert(groups@.drop_last() =~= Seq::empty());
            assert(memory::decodable(m0, groups@));
            assert(memory::decoded(m0, groups@) =~= memory::appended(m0, groups@[0].seqs@, self.head@));
        }
        let res: Result<(), DecodeError> = self.ledger.decode(b, &groups, &rows, Ghost(on));
        proof {
            reveal_with_fuel(memory::asked, 2);
            assert(rows@.drop_last() =~= Seq::empty());
            assert(self.ledger.asks@ =~= l0.asks);
            calls::lemma_call(t0, t0, l0, l0, Call::Decode { groups: groups@, rows: rows@, went: res is Ok });
        }
        match res {
            Err(e) => {
                self.scratch.push(0);
                proof {
                    assert(self.scratch@[0] == 0i32);
                    assert(self.scratch@.contains(0i32));
                }
                Err(KvError::Decode(e))
            },
            Ok(_) => {
                let e: Entry = Entry {
                    toks: slice_to_vec(self.head.as_slice()),
                    seq: 0,
                    cells: self.head.len(),
                    tick: 0,
                    born: 0,
                    pinned: true,
                    temp: false,
                };
                self.entries.push(e);
                proof {
                    assert(self.ledger.seen@ =~= l0.seen) by {
                        reveal_with_fuel(memory::heard, 2);
                        assert(rows@.drop_last() =~= Seq::empty());
                    }
                    assert(groups@[0].seqs@[0] == 0i32);
                    assert(groups@[0].seqs@.contains(0i32));
                    assert(self.entries@[0] == e);
                    assert(kv::taken(self.entries@, 0));
                    assert(self.ledger.held@[0] =~= self.head@);
                    assert(self.entries@.drop_last() =~= Seq::empty());
                    reveal_with_fuel(kv::tally, 2);
                    assert forall|s: i32| !kv::taken(self.entries@, s) implies #[trigger] self.ledger.held@[s]
                        == Seq::<i32>::empty() by {
                        assert(s != 0);
                        assert(!groups@[0].seqs@.contains(s));
                    }
                }
                Ok(())
            },
        }
    }

    /// The cached spans: (seq, tokens).
    pub fn entries(&self) -> (r: Vec<(i32, Vec<i32>)>)
        ensures
            r@.len() == self.entries@.len(),
            forall|i: int|
                0 <= i < r@.len() ==> (#[trigger] r@[i]).0 == self.entries@[i].seq && r@[i].1@ == self.entries@[i].toks@,
    {
        let mut r: Vec<(i32, Vec<i32>)> = Vec::new();
        let mut i: usize = 0;
        while i < self.entries.len()
            invariant
                i <= self.entries@.len(),
                r@.len() == i,
                forall|k: int|
                    0 <= k < i ==> (#[trigger] r@[k]).0 == self.entries@[k].seq && r@[k].1@ == self.entries@[k].toks@,
            decreases self.entries@.len() - i,
        {
            let e: &Entry = &self.entries[i];
            r.push((e.seq, slice_to_vec(e.toks.as_slice())));
            i += 1;
        }
        r
    }

    /// Decode every job; the backend hands each job its logits row, read right
    /// after exactly its prompt.
    #[verifier::rlimit(40)]
    #[verifier::spinoff_prover]
    pub fn run<'a, B: Backend>(&mut self, b: &mut B, jobs: &Vec<Job<'a>>, shared: bool) -> (r: Result<Stats, KvError>)
        requires
            old(self).wf(),
            weight::prompt_tokens(jobs@) <= usize::MAX,
        ensures
            calls::follows(
                old(b).told(),
                final(b).told(),
                calls::unread(old(self).ledger.model()),
                final(self).ledger.model(),
            ),
            final(self).settled(),
            final(self).n_seq == old(self).n_seq,
            final(self).n_ctx == old(self).n_ctx,
            final(self).head@ == old(self).head@,
            same_head(final(self).entries@, old(self).entries@),
            final(self).ledger.refused@ >= old(self).ledger.refused@,
            asked_right(old(self).ledger.asks@, final(self).ledger.asks@, jobs@),
            r matches Ok(st) ==> {
                &&& forall|j: int| 0 <= j < jobs@.len() ==> !unfit(#[trigger] jobs@[j], old(self).n_ctx as int)
                &&& forall|j: usize| j < jobs@.len() ==> #[trigger] heard_right(&final(self).ledger, jobs@, j)
                &&& forall|j: usize| j < jobs@.len() ==> #[trigger] was_asked(&final(self).ledger, jobs@, j)
                &&& only_read(final(self).ledger.seen@, jobs@.len() as int)
                &&& trimmed(final(self))
                &&& exists|way: Seq<Point>| #[trigger] arrived(old(self), final(self), jobs@, shared, st, way)
                &&& st.decoded == final(self).ledger.written@ - old(self).ledger.written@
                &&& st.waves == final(self).ledger.passed@ - old(self).ledger.passed@
                &&& st.hits <= jobs@.len()
                &&& st.misses <= jobs@.len()
                &&& jobs@.len() == 0 ==> st.waves == 0 && st.decoded == 0 && st.hits == 0 && st.misses == 0
            },
            r matches Err(e) ==> match e {
                KvError::Prompt { tokens, ctx } => {
                    &&& ctx == old(self).n_ctx
                    &&& final(b).told() == old(b).told() + removals(old(self).scratch@)
                    &&& final(self).entries@ == old(self).entries@
                    &&& final(self).ledger.seen@ == Map::<usize, Seq<i32>>::empty()
                    &&& final(self).ledger.written@ == old(self).ledger.written@
                    &&& final(self).ledger.passed@ == old(self).ledger.passed@
                    &&& final(self).ledger.refused@ == old(self).ledger.refused@
                    &&& exists|j: int|
                        0 <= j < jobs@.len() && unfit(#[trigger] jobs@[j], ctx as int) && tokens == jobs@[j].toks@.len()
                            && forall|i: int| 0 <= i < j ==> !unfit(#[trigger] jobs@[i], ctx as int)
                },
                KvError::Unfit { tokens, ctx } => {
                    &&& ctx == old(self).n_ctx
                    &&& kv::refuses::<B>(DecodeError::NoSlot)
                    &&& final(self).ledger.refused@ > old(self).ledger.refused@
                    &&& only_read(final(self).ledger.seen@, jobs@.len() as int)
                    &&& exists|j: int| 0 <= j < jobs@.len() && tokens == (#[trigger] jobs@[j]).toks@.len()
                    &&& exists|way: Seq<Point>| #[trigger]
                        ended_short(old(self), final(self), jobs@, shared, tokens as int, way)
                },
                KvError::Decode(d) => {
                    &&& d is Failed
                    &&& kv::refuses::<B>(d)
                    &&& final(self).ledger.refused@ > old(self).ledger.refused@
                    &&& only_read(final(self).ledger.seen@, jobs@.len() as int)
                    &&& exists|way: Seq<Point>| #[trigger] ended_broken(old(self), final(self), jobs@, shared, way)
                },
            },
            (exists|j: int| 0 <= j < jobs@.len() && unfit(#[trigger] jobs@[j], old(self).n_ctx as int)) ==> r
                is Err && r->Err_0 is Prompt,
    {
        let ghost o = *self;
        let ghost (t0, l0) = (b.told(), calls::unread(self.ledger.model()));
        clean(self, b);
        if let Some(i) = first_unfit(jobs, self.n_ctx) {
            assert(unfit(jobs@[i as int], self.n_ctx as int));
            return Err(KvError::Prompt { tokens: jobs[i].toks.len(), ctx: self.n_ctx });
        }
        let first: u64 = self.tick.saturating_add(1);
        let mut st: Stats = Stats { decoded: 0, waves: 0, hits: 0, misses: 0 };
        let mut pending: Vec<usize> = all_of(jobs.len());
        let mut limit: usize = usize::MAX;
        let ghost written0 = self.ledger.written@;
        let ghost passed0 = self.ledger.passed@;
        let ghost mut way: Seq<Point> = seq![Point { kv: *self, left: pending@, st, limit: limit as int }];
        proof {
            assert forall|j: usize| j < jobs@.len() implies pending@.contains(j) by {
                assert(pending@[j as int] == j);
            }
            assert(pending@ =~= Seq::new(jobs@.len(), |i: int| i as usize));
            weight::lemma_all_weight(jobs@, pending@, jobs@.len() as int);
            assert(jobs@.take(jobs@.len() as int) =~= jobs@);
        }
        let ghost start = way[0];
        while pending.len() > 0
            invariant
                first == next_tick(o.tick),
                way.len() > 0,
                way[0] == start,
                way.last() == (Point { kv: *self, left: pending@, st, limit: limit as int }),
                only_read(self.ledger.seen@, jobs@.len() as int),
                asked_right(o.ledger.asks@, self.ledger.asks@, jobs@),
                is_way(&o, jobs@, shared, way),
                self.settled(),
                self.n_seq == o.n_seq,
                self.n_ctx == o.n_ctx,
                self.head@ == o.head@,
                same_head(self.entries@, o.entries@),
                o == *old(self),
                t0 == old(b).told(),
                l0 == calls::unread(o.ledger.model()),
                calls::follows(t0, b.told(), l0, self.ledger.model()),
                forall|j: int| 0 <= j < jobs@.len() ==> !unfit(#[trigger] jobs@[j], o.n_ctx as int),
                pending_ok(jobs@, pending@, o.n_ctx as int),
                limit > 0,
                pending@.len() <= jobs@.len(),
                countable(st, pending@.len() as int, weight::weight(jobs@, pending@, jobs@.len() as int) as int),
                st.waves + pending@.len() <= jobs@.len(),
                st.waves == 0 ==> st.decoded == 0,
                st.hits + pending@.len() <= jobs@.len(),
                st.misses + pending@.len() <= jobs@.len(),
                forall|j: usize| j < jobs@.len() ==> pending@.contains(j) || #[trigger] heard_right(&self.ledger, jobs@, j),
                written0 == o.ledger.written@,
                passed0 == o.ledger.passed@,
                st.decoded == self.ledger.written@ - written0,
                st.waves == self.ledger.passed@ - passed0,
                self.ledger.refused@ >= o.ledger.refused@,
            decreases
                    pending@.len(),
                    self.entries@.len(),
                    (if limit <= pending@.len() {
                        limit as int
                    } else {
                        pending@.len() as int
                    }),
        {
            let ghost before = *self;
            let ghost st0 = st;
            let ghost t1 = b.told();
            let outcome = wave(self, b, jobs, &pending, shared, first, limit, &mut st);
            proof {
                calls::lemma_on(t0, t1, b.told(), l0, before.ledger.model(), self.ledger.model());
            }
            match outcome {
                Err(e) => {
                    proof {
                        lemma_same_head_trans(self.entries@, before.entries@, o.entries@);
                        lemma_only_pending(before.ledger.seen@, self.ledger.seen@, jobs@, pending@, o.n_ctx as int);
                        if e is Decode {
                            assert(ended_broken(&o, self, jobs@, shared, way));
                        }
                        if e is Unfit {
                            assert(ended_short(&o, self, jobs@, shared, e->Unfit_tokens as int, way));
                            let k = choose|k: int|
                                0 <= k < pending@.len() && e->Unfit_tokens == jobs@[#[trigger] pending@[k] as int].toks@.len();
                            let j = pending@[k] as int;
                            assert(e->Unfit_tokens == jobs@[j].toks@.len());
                        }
                    }
                    return Err(e);
                },
                Ok(None) => {
                    proof {
                        lemma_same_head_trans(self.entries@, before.entries@, o.entries@);
                        lemma_still(before.ledger, self.ledger, jobs@, pending@);
                        lemma_only_pending(before.ledger.seen@, self.ledger.seen@, jobs@, pending@, o.n_ctx as int);
                        let here = Point { kv: *self, left: pending@, st, limit: smaller(limit as int, pending@.len() as int) };
                        reveal(step);
                        assert(step(jobs@, shared, first, way.last(), here));
                        lemma_led(jobs@, shared, first, way, here);
                        way = way.push(here);
                    }
                    let most: usize = if limit < pending.len() {
                        limit
                    } else {
                        pending.len()
                    };
                    limit = if most / 2 > 1 {
                        most / 2
                    } else {
                        1
                    };
                },
                Ok(Some(left)) => {
                    proof {
                        lemma_same_head_trans(self.entries@, before.entries@, o.entries@);
                        assert(jobs.len() == jobs@.len());
                        lemma_progress(before, *self, jobs@, pending@, left@, shared, limit as int, first, st0, st);
                        lemma_only_pending(before.ledger.seen@, self.ledger.seen@, jobs@, pending@, o.n_ctx as int);
                        let here = Point { kv: *self, left: left@, st, limit: usize::MAX as int };
                        reveal(step);
                        assert(step(jobs@, shared, first, way.last(), here));
                        lemma_led(jobs@, shared, first, way, here);
                        way = way.push(here);
                    }
                    pending = left;
                    limit = usize::MAX;
                },
            }
        }
        let ghost done = *self;
        let ghost t2 = b.told();
        trim(self, b);
        proof {
            calls::lemma_on(t0, t2, b.told(), l0, done.ledger.model(), self.ledger.model());
            assert(arrived(&o, self, jobs@, shared, st, way));
            lemma_same_head_trans(self.entries@, done.entries@, o.entries@);
            assert forall|j: usize| j < jobs@.len() implies #[trigger] heard_right(&self.ledger, jobs@, j) by {
                assert(!pending@.contains(j));
                assert(heard_right(&done.ledger, jobs@, j));
            }
            lemma_asked_too(t0, b.told(), l0, &self.ledger, jobs@);
        }
        Ok(st)
    }
}

/// `0..n`.
fn all_of(n: usize) -> (r: Vec<usize>)
    ensures
        r@.len() == n,
        forall|i: int| 0 <= i < n ==> #[trigger] r@[i] == i,
{
    let mut r: Vec<usize> = Vec::new();
    let mut i: usize = 0;
    while i < n
        invariant
            i <= n,
            r@.len() == i,
            forall|k: int| 0 <= k < i ==> #[trigger] r@[k] == k,
        decreases n - i,
    {
        r.push(i);
        i += 1;
    }
    r
}

/// A wave reads no job but pending ones, so none past the jobs.
proof fn lemma_only_pending(a: Map<usize, Seq<i32>>, b: Map<usize, Seq<i32>>, jobs: Seq<Job>, pending: Seq<usize>, n_ctx: int)
    requires
        still_seen(a, b, pending),
        pending_ok(jobs, pending, n_ctx),
        only_read(a, jobs.len() as int),
    ensures
        only_read(b, jobs.len() as int),
{
    assert forall|j: usize| #[trigger] b.dom().contains(j) implies j < jobs.len() by {
        if pending.contains(j) {
            let i = choose|i: int| 0 <= i < pending.len() && pending[i] == j;
            assert(pending[i] < jobs.len());
        }
    }
}

/// Rows that were heard were asked for.
proof fn lemma_asked_too(t: Seq<Call>, u: Seq<Call>, m: calls::Model, l: &Ledger, jobs: Seq<Job>)
    requires
        calls::follows(t, u, m, l.model()),
        m.seen == Map::<usize, Seq<i32>>::empty(),
        forall|j: usize| j < jobs.len() ==> #[trigger] heard_right(l, jobs, j),
    ensures
        forall|j: usize| j < jobs.len() ==> #[trigger] was_asked(l, jobs, j),
{
    reveal(calls::follows);
    assert forall|j: usize| j < jobs.len() implies #[trigger] was_asked(l, jobs, j) by {
        assert(heard_right(l, jobs, j));
        calls::law_heard_was_asked(m, u.skip(t.len() as int), j);
    }
}

/// Jobs answered before a refused wave stay answered.
proof fn lemma_still(a: Ledger, b: Ledger, jobs: Seq<Job>, pending: Seq<usize>)
    requires
        still_seen(a.seen@, b.seen@, pending),
    ensures
        forall|j: usize| !pending.contains(j) && heard_right(&a, jobs, j) ==> #[trigger] heard_right(&b, jobs, j),
{
    assert forall|j: usize| !pending.contains(j) && heard_right(&a, jobs, j) implies #[trigger] heard_right(&b, jobs, j) by {
        assert(b.seen@.dom().contains(j));
    }
}

/// A wave that went through leaves fewer jobs, and none unanswered but those.
#[verifier::rlimit(40)]
#[verifier::spinoff_prover]
proof fn lemma_progress(
    a: Kv,
    b: Kv,
    jobs: Seq<Job>,
    pending: Seq<usize>,
    left: Seq<usize>,
    shared: bool,
    limit: int,
    first: u64,
    st0: Stats,
    st: Stats,
)
    requires
        waved(a, b, jobs, pending, left, shared, limit, first, st0, st),
        pending_ok(jobs, pending, a.n_ctx as int),
        jobs.len() <= usize::MAX,
        countable(st0, pending.len() as int, weight::weight(jobs, pending, jobs.len() as int) as int),
    ensures
        left.len() < pending.len(),
        pending_ok(jobs, left, a.n_ctx as int),
        countable(st, left.len() as int, weight::weight(jobs, left, jobs.len() as int) as int),
        forall|j: usize| pending.contains(j) ==> left.contains(j) || #[trigger] heard_right(&b.ledger, jobs, j),
        forall|j: usize|
            !pending.contains(j) && heard_right(&a.ledger, jobs, j) ==> #[trigger] heard_right(&b.ledger, jobs, j),
        still_seen(a.ledger.seen@, b.ledger.seen@, pending),
        b.ledger.written@ - a.ledger.written@ == st.decoded - st0.decoded,
        b.ledger.passed@ == a.ledger.passed@ + 1,
        b.ledger.refused@ == a.ledger.refused@,
        st.waves == st0.waves + 1,
        st.hits + left.len() <= st0.hits + pending.len(),
        st.misses + left.len() <= st0.misses + pending.len(),
{
    let (items, p) = choose|items: Seq<Item>, p: Plan| #[trigger]
        went_through(a, b, jobs, items, p, pending, left, shared, limit, first, st0, st);
    let n = p.n as int;
    let all = wave::jobs_of(items);
    assert(left.len() == pending.len() - n);
    lemma_wave_jobs(items, jobs, pending, a.entries@, shared, n);
    assert forall|i: int| 0 <= i < left.len() implies #[trigger] left[i] < jobs.len() && 1 <= jobs[left[i] as int].toks@.len()
        <= a.n_ctx by {
        assert(left.contains(left[i]));
        let k = choose|k: int| 0 <= k < pending.len() && pending[k] == left[i];
        assert(pending[k] < jobs.len());
    }
    assert(left.no_duplicates()) by {
        assert forall|i: int, j: int| 0 <= i < left.len() && 0 <= j < left.len() && i != j implies left[i] != left[j] by {
            assert(all[n + i] != all[n + j]);
        }
    }
    assert forall|j: usize| pending.contains(j) implies left.contains(j) || #[trigger] heard_right(&b.ledger, jobs, j) by {
        assert(all.contains(j));
        let k = choose|k: int| 0 <= k < all.len() && all[k] == j;
        if k < n {
            assert(all.take(n)[k] == j);
            assert(all.take(n).contains(j));
        } else {
            assert(left[k - n] == j);
        }
    }
    lemma_still(a.ledger, b.ledger, jobs, pending);
    assert forall|k: int| 0 <= k < items.len() implies (#[trigger] items[k]).job < jobs.len() && items[k].toks
        == jobs[items[k].job as int].toks by {
        assert(kv::item_ok(jobs, a.entries@, shared, items[k]));
    }
    weight::lemma_cells_weigh(jobs, items, shared, n);
    weight::lemma_left_weighs(jobs, items, pending, n);
    lemma_counts(a.entries@, items, shared, first, n);
}

proof fn lemma_counts(es: Seq<Entry>, items: Seq<Item>, shared: bool, first: u64, n: int)
    requires
        0 <= n,
    ensures
        hits(es, items, first, n) <= n,
        misses(items, shared, n) <= n,
    decreases n,
{
    if n > 0 {
        lemma_counts(es, items, shared, first, n - 1);
    }
}

} // verus!
